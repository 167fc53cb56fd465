//! Matches and the tokens they stand for.

use vstd::prelude::*;
use vstd::string::*;
use super::lookahead::{next_token, peek_token, pending, peeked, reset_peek, Tokens};
use super::parse::{State, StateView};
use super::text::{str_eq, NEWLINE};
use super::tokenize::CharPos;

verus! {

/// Which end of a pair a match is. Markers that pair with nothing, such as a
/// line comment's, are `NonPair`.
#[derive(Clone, Copy, Debug, PartialEq, Eq, Structural)]
pub enum Kind {
    Opening,
    Closing,
    NonPair,
}

/// What a match is an occurrence of, with the markers of its pair.
#[derive(Clone, Copy, Debug, PartialEq, Eq)]
pub enum Token {
    /// An opening and a closing delimiter.
    Delimiter(&'static str, &'static str),
    /// The marker that starts a comment running to the end of the line.
    LineComment(&'static str),
    /// The opening and closing marker of a block comment.
    BlockComment(&'static str, &'static str),
    /// A named span that ends with its line: name, opening and closing marker.
    InlineSpan(&'static str, &'static str, &'static str),
    /// A named span that may run over lines: name, opening and closing marker.
    BlockSpan(&'static str, &'static str, &'static str),
}

/// A token with each marker and name taken as its bytes.
pub enum TokenView {
    Delimiter(Seq<u8>, Seq<u8>),
    LineComment(Seq<u8>),
    BlockComment(Seq<u8>, Seq<u8>),
    InlineSpan(Seq<u8>, Seq<u8>, Seq<u8>),
    BlockSpan(Seq<u8>, Seq<u8>, Seq<u8>),
}

impl TokenView {
    /// The marker that opens the pair, or the only marker there is.
    pub open spec fn opening(self) -> Seq<u8> {
        match self {
            TokenView::Delimiter(open, _) => open,
            TokenView::LineComment(marker) => marker,
            TokenView::BlockComment(open, _) => open,
            TokenView::InlineSpan(_, open, _) => open,
            TokenView::BlockSpan(_, open, _) => open,
        }
    }

    /// The marker that closes the pair, if the token has one.
    pub open spec fn closing(self) -> Option<Seq<u8>> {
        match self {
            TokenView::Delimiter(_, close) => Some(close),
            TokenView::LineComment(_) => None,
            TokenView::BlockComment(_, close) => Some(close),
            TokenView::InlineSpan(_, _, close) => Some(close),
            TokenView::BlockSpan(_, _, close) => Some(close),
        }
    }

    /// The name of the span, if the token is one.
    pub open spec fn span(self) -> Option<Seq<u8>> {
        match self {
            TokenView::InlineSpan(name, _, _) => Some(name),
            TokenView::BlockSpan(name, _, _) => Some(name),
            _ => None,
        }
    }

    /// The bytes that a match of the given kind covers.
    pub open spec fn marker(self, kind: Kind) -> Seq<u8> {
        match (kind, self.closing()) {
            (Kind::Closing, Some(close)) => close,
            _ => self.opening(),
        }
    }
}

impl View for Token {
    type V = TokenView;

    open spec fn view(&self) -> TokenView {
        match *self {
            Token::Delimiter(open, close) => TokenView::Delimiter(
                open.spec_bytes(),
                close.spec_bytes(),
            ),
            Token::LineComment(marker) => TokenView::LineComment(marker.spec_bytes()),
            Token::BlockComment(open, close) => TokenView::BlockComment(
                open.spec_bytes(),
                close.spec_bytes(),
            ),
            Token::InlineSpan(name, open, close) => TokenView::InlineSpan(
                name.spec_bytes(),
                open.spec_bytes(),
                close.spec_bytes(),
            ),
            Token::BlockSpan(name, open, close) => TokenView::BlockSpan(
                name.spec_bytes(),
                open.spec_bytes(),
                close.spec_bytes(),
            ),
        }
    }
}

impl Token {
    /// The marker that opens the pair, or the only marker there is.
    pub fn opening(&self) -> (marker: &'static str)
        ensures
            marker.spec_bytes() == self@.opening(),
    {
        match *self {
            Token::Delimiter(open, _) => open,
            Token::LineComment(marker) => marker,
            Token::BlockComment(open, _) => open,
            Token::InlineSpan(_, open, _) => open,
            Token::BlockSpan(_, open, _) => open,
        }
    }

    /// The marker that closes the pair, if the token has one.
    pub fn closing(&self) -> (marker: Option<&'static str>)
        ensures
            marker is Some <==> self@.closing() is Some,
            marker is Some ==> marker->0.spec_bytes() == self@.closing()->0,
    {
        match *self {
            Token::Delimiter(_, close) => Some(close),
            Token::LineComment(_) => None,
            Token::BlockComment(_, close) => Some(close),
            Token::InlineSpan(_, _, close) => Some(close),
            Token::BlockSpan(_, _, close) => Some(close),
        }
    }

    /// Whether the token is a delimiter.
    pub fn is_delimiter(&self) -> (r: bool)
        ensures
            r == (self@ is Delimiter),
    {
        match *self {
            Token::Delimiter(_, _) => true,
            _ => false,
        }
    }

    /// Whether two tokens are of the same sort with the same markers and name.
    pub fn same(&self, other: &Token) -> (r: bool)
        ensures
            r == (self@ == other@),
    {
        match (*self, *other) {
            (Token::Delimiter(a, b), Token::Delimiter(c, d)) => str_eq(a, c) && str_eq(b, d),
            (Token::LineComment(a), Token::LineComment(c)) => str_eq(a, c),
            (Token::BlockComment(a, b), Token::BlockComment(c, d)) => str_eq(a, c) && str_eq(b, d),
            (Token::InlineSpan(n, a, b), Token::InlineSpan(m, c, d)) => str_eq(n, m) && str_eq(a, c)
                && str_eq(b, d),
            (Token::BlockSpan(n, a, b), Token::BlockSpan(m, c, d)) => str_eq(n, m) && str_eq(a, c)
                && str_eq(b, d),
            _ => false,
        }
    }

    /// Whether the token is the delimiter pair with the given markers.
    pub fn is_pair(&self, opening: &str, closing: &str) -> (r: bool)
        ensures
            r == (self@ == TokenView::Delimiter(opening.spec_bytes(), closing.spec_bytes())),
    {
        match *self {
            Token::Delimiter(open, close) => str_eq(open, opening) && str_eq(close, closing),
            _ => false,
        }
    }
}

/// One recognised marker on a line.
#[derive(Clone, Copy, Debug, PartialEq, Eq)]
pub struct Match {
    pub kind: Kind,
    pub token: Token,
    /// Byte column of the marker's first byte within its line.
    pub col: usize,
    /// Nesting depth of the pair the match belongs to; `None` for a delimiter
    /// without a partner and for every match that is no delimiter.
    pub stack_height: Option<usize>,
}

/// A match over mathematical values.
pub struct MatchView {
    pub kind: Kind,
    pub token: TokenView,
    pub col: nat,
    pub stack_height: Option<nat>,
}

impl MatchView {
    /// The number of bytes the match covers.
    pub open spec fn len(self) -> nat {
        self.token.marker(self.kind).len()
    }

    /// Whether the match covers the given column.
    pub open spec fn covers(self, col: nat) -> bool {
        self.col <= col < self.col + self.len()
    }

    /// Whether the match is a delimiter.
    pub open spec fn is_delimiter(self) -> bool {
        self.token is Delimiter
    }

    /// Whether the match is an opening delimiter.
    pub open spec fn opens(self) -> bool {
        self.token is Delimiter && self.kind == Kind::Opening
    }

    /// Whether the match is a closing delimiter.
    pub open spec fn closes(self) -> bool {
        self.token is Delimiter && self.kind == Kind::Closing
    }

    /// The match with another nesting depth.
    pub open spec fn with_height(self, stack_height: Option<nat>) -> MatchView {
        MatchView { stack_height, ..self }
    }
}

/// The nesting depth over mathematical values.
pub open spec fn height_view(stack_height: Option<usize>) -> Option<nat> {
    match stack_height {
        Some(height) => Some(height as nat),
        None => None,
    }
}

impl View for Match {
    type V = MatchView;

    open spec fn view(&self) -> MatchView {
        MatchView {
            kind: self.kind,
            token: self.token@,
            col: self.col as nat,
            stack_height: height_view(self.stack_height),
        }
    }
}

impl Match {
    /// The number of bytes the match covers.
    pub fn len(&self) -> (n: usize)
        ensures
            n == self@.len(),
    {
        match (self.kind, self.token.closing()) {
            (Kind::Closing, Some(close)) => close.as_bytes().len(),
            _ => self.token.opening().as_bytes().len(),
        }
    }

    /// The match together with the line it stands on.
    pub fn with_line(&self, line: usize) -> (r: MatchWithLine)
        ensures
            r@ == self@.on_line(line as nat),
    {
        MatchWithLine {
            kind: self.kind,
            token: self.token,
            line,
            col: self.col,
            stack_height: self.stack_height,
        }
    }
}

/// A match together with the number of the line it stands on.
#[derive(Clone, Copy, Debug, PartialEq, Eq)]
pub struct MatchWithLine {
    pub kind: Kind,
    pub token: Token,
    pub line: usize,
    pub col: usize,
    pub stack_height: Option<usize>,
}

/// A match with its line, over mathematical values.
pub struct MatchWithLineView {
    pub kind: Kind,
    pub token: TokenView,
    pub line: nat,
    pub col: nat,
    pub stack_height: Option<nat>,
}

impl MatchView {
    /// The match together with the line it stands on.
    pub open spec fn on_line(self, line: nat) -> MatchWithLineView {
        MatchWithLineView {
            kind: self.kind,
            token: self.token,
            line,
            col: self.col,
            stack_height: self.stack_height,
        }
    }
}

impl View for MatchWithLine {
    type V = MatchWithLineView;

    open spec fn view(&self) -> MatchWithLineView {
        MatchWithLineView {
            kind: self.kind,
            token: self.token@,
            line: self.line as nat,
            col: self.col as nat,
            stack_height: height_view(self.stack_height),
        }
    }
}

/// Whether the matches of a line stand in rising columns without overlap,
/// each covering at least one byte.
pub open spec fn spaced(line: Seq<MatchView>) -> bool {
    &&& forall|k: int| 0 <= k < line.len() ==> (#[trigger] line[k]).len() >= 1
    &&& forall|j: int, k: int|
        0 <= j < k < line.len() ==> (#[trigger] line[j]).col + line[j].len() <= (#[trigger] line[k]).col
}

/// The views of a run of matches.
pub open spec fn match_views(matches: Seq<Match>) -> Seq<MatchView> {
    matches.map_values(|m: Match| m@)
}

/// What a rule of a matcher recognises.
#[derive(Clone, Copy, Debug, PartialEq, Eq, Structural)]
pub enum RuleKind {
    Delimiter,
    LineComment,
    BlockComment,
    String,
    BlockString,
    InlineSpan,
    BlockSpan,
}

/// One entry of a language's table: a sort of construct with the marker that
/// opens it and the marker that closes it. Spans carry a name; a line comment
/// has no closing marker.
#[derive(Clone, Copy, Debug)]
pub struct Rule {
    pub kind: RuleKind,
    pub name: &'static str,
    pub open: &'static str,
    pub close: &'static str,
}

/// A rule with its markers and name taken as bytes.
pub struct RuleView {
    pub kind: RuleKind,
    pub name: Seq<u8>,
    pub open: Seq<u8>,
    pub close: Seq<u8>,
}

impl View for Rule {
    type V = RuleView;

    open spec fn view(&self) -> RuleView {
        RuleView {
            kind: self.kind,
            name: self.name.spec_bytes(),
            open: self.open.spec_bytes(),
            close: self.close.spec_bytes(),
        }
    }
}

impl RuleView {
    /// The token of the matches that the rule emits; strings emit none.
    pub open spec fn token(self) -> Option<TokenView> {
        match self.kind {
            RuleKind::Delimiter => Some(TokenView::Delimiter(self.open, self.close)),
            RuleKind::LineComment => Some(TokenView::LineComment(self.open)),
            RuleKind::BlockComment => Some(TokenView::BlockComment(self.open, self.close)),
            RuleKind::String => None,
            RuleKind::BlockString => None,
            RuleKind::InlineSpan => Some(TokenView::InlineSpan(self.name, self.open, self.close)),
            RuleKind::BlockSpan => Some(TokenView::BlockSpan(self.name, self.open, self.close)),
        }
    }

    /// The state after the rule's opening marker.
    pub open spec fn entered(self) -> StateView {
        match self.kind {
            RuleKind::Delimiter => StateView::Normal,
            RuleKind::LineComment => StateView::InLineComment,
            RuleKind::BlockComment => StateView::InBlockComment(self.close),
            RuleKind::String => StateView::InString(self.close),
            RuleKind::BlockString => StateView::InBlockString(self.close),
            RuleKind::InlineSpan => StateView::InInlineSpan(self.name),
            RuleKind::BlockSpan => StateView::InBlockSpan(self.name),
        }
    }

    /// The kind of the match for the rule's opening marker.
    pub open spec fn opening_kind(self) -> Kind {
        if self.kind == RuleKind::LineComment {
            Kind::NonPair
        } else {
            Kind::Opening
        }
    }

    /// Which end of the rule, if any, stands at a token in plain text: the
    /// opening marker, or for a delimiter else the closing one.
    pub open spec fn fires(self, token: CharPos, rest: Seq<CharPos>) -> Option<Kind> {
        if marker_at(self.open, token, rest) {
            Some(self.opening_kind())
        } else if self.kind == RuleKind::Delimiter && marker_at(self.close, token, rest) {
            Some(Kind::Closing)
        } else {
            None
        }
    }

    /// Whether the rule is the one whose closing marker ends the given state.
    /// Only block comments and spans end with a match of their own.
    pub open spec fn closes(self, state: StateView) -> bool {
        match state {
            StateView::InBlockComment(close) => self.kind == RuleKind::BlockComment && self.close
                == close,
            StateView::InInlineSpan(name) => self.kind == RuleKind::InlineSpan && self.name == name,
            StateView::InBlockSpan(name) => self.kind == RuleKind::BlockSpan && self.name == name,
            _ => false,
        }
    }
}

/// Whether a marker stands at a token: the token is the marker's first byte,
/// and the tokens after it are the marker's other bytes in the columns that
/// follow. A marker with a newline in it stands nowhere: no match runs over a
/// line end.
pub open spec fn marker_at(marker: Seq<u8>, token: CharPos, rest: Seq<CharPos>) -> bool {
    &&& marker.len() > 0
    &&& forall|k: int| 0 <= k < marker.len() ==> #[trigger] marker[k] != NEWLINE
    &&& marker[0] == token.0
    &&& marker.len() - 1 <= rest.len()
    &&& forall|k: int|
        1 <= k < marker.len() ==> (#[trigger] rest[k - 1]).0 == marker[k] && rest[k - 1].1
            == token.1 + k
}

/// The index of the first rule from `from` on that fires at a token.
pub open spec fn first_firing(
    rules: Seq<RuleView>,
    token: CharPos,
    rest: Seq<CharPos>,
    from: int,
) -> Option<int>
    decreases rules.len() - from,
{
    if from < 0 || from >= rules.len() {
        None
    } else if rules[from].fires(token, rest) is Some {
        Some(from)
    } else {
        first_firing(rules, token, rest, from + 1)
    }
}

/// The index of the first rule from `from` on whose closing marker ends the
/// given state.
pub open spec fn first_closer(rules: Seq<RuleView>, state: StateView, from: int) -> Option<int>
    decreases rules.len() - from,
{
    if from < 0 || from >= rules.len() {
        None
    } else if rules[from].closes(state) {
        Some(from)
    } else {
        first_closer(rules, state, from + 1)
    }
}

/// What the search for a firing rule finds: the first rule that fires, and
/// none where none does.
pub proof fn lemma_first_firing(rules: Seq<RuleView>, token: CharPos, rest: Seq<CharPos>, from: int)
    requires
        0 <= from,
    ensures
        match first_firing(rules, token, rest, from) {
            Some(i) => from <= i < rules.len() && rules[i].fires(token, rest) is Some
                && forall|j: int| from <= j < i ==> (#[trigger] rules[j]).fires(token, rest) is None,
            None => forall|j: int|
                from <= j < rules.len() ==> (#[trigger] rules[j]).fires(token, rest) is None,
        },
    decreases rules.len() - from,
{
    if from < rules.len() && rules[from].fires(token, rest) is None {
        lemma_first_firing(rules, token, rest, from + 1);
    }
}

/// What the search for a closing rule finds: the first rule that closes the
/// state, and none where none does.
pub proof fn lemma_first_closer(rules: Seq<RuleView>, state: StateView, from: int)
    requires
        0 <= from,
    ensures
        match first_closer(rules, state, from) {
            Some(i) => from <= i < rules.len() && rules[i].closes(state) && forall|j: int|
                from <= j < i ==> !(#[trigger] rules[j]).closes(state),
            None => forall|j: int| from <= j < rules.len() ==> !(#[trigger] rules[j]).closes(state),
        },
    decreases rules.len() - from,
{
    if from < rules.len() && !rules[from].closes(state) {
        lemma_first_closer(rules, state, from + 1);
    }
}

/// What one step of a matcher does: the state it leaves, the match it adds to
/// the line, and how many tokens it takes beyond the one it was given.
pub struct Outcome {
    pub state: StateView,
    pub emitted: Option<MatchView>,
    pub consumed: nat,
}

/// The views of a run of rules.
pub open spec fn rule_views(rules: Seq<Rule>) -> Seq<RuleView> {
    rules.map_values(|r: Rule| r@)
}

/// The step that leaves everything as it is.
pub open spec fn inert(state: StateView) -> Outcome {
    Outcome { state, emitted: None, consumed: 0 }
}

/// The match that a rule emits for one of its ends at a column.
pub open spec fn emitted_by(rule: RuleView, kind: Kind, col: usize) -> Option<MatchView> {
    match rule.token() {
        Some(token) => Some(MatchView { kind, token, col: col as nat, stack_height: None }),
        None => None,
    }
}

/// One step of a matcher with the given rules, on a token and the tokens
/// after it.
///
/// An escaped token is plain text. In plain text the first rule that fires
/// decides: its opening marker enters the rule's state, a closing delimiter
/// leaves the state as it is. Inside a string only the marker that closes it
/// counts, inside a block comment or a span only the closing marker of the
/// rule that the state belongs to, and inside a line comment nothing does.
pub open spec fn step_spec(
    rules: Seq<RuleView>,
    state: StateView,
    token: CharPos,
    rest: Seq<CharPos>,
    escaped: bool,
) -> Outcome {
    if escaped {
        inert(state)
    } else {
        match state {
            StateView::Normal => match first_firing(rules, token, rest, 0) {
                Some(i) => {
                    let kind = rules[i].fires(token, rest)->0;
                    if kind == Kind::Closing {
                        Outcome {
                            state: StateView::Normal,
                            emitted: emitted_by(rules[i], kind, token.1),
                            consumed: (rules[i].close.len() - 1) as nat,
                        }
                    } else {
                        Outcome {
                            state: rules[i].entered(),
                            emitted: emitted_by(rules[i], kind, token.1),
                            consumed: (rules[i].open.len() - 1) as nat,
                        }
                    }
                },
                None => inert(state),
            },
            StateView::InString(close) | StateView::InBlockString(close) => if marker_at(
                close,
                token,
                rest,
            ) {
                Outcome {
                    state: StateView::Normal,
                    emitted: None,
                    consumed: (close.len() - 1) as nat,
                }
            } else {
                inert(state)
            },
            StateView::InLineComment => inert(state),
            _ => match first_closer(rules, state, 0) {
                Some(i) => if marker_at(rules[i].close, token, rest) {
                    Outcome {
                        state: StateView::Normal,
                        emitted: emitted_by(rules[i], Kind::Closing, token.1),
                        consumed: (rules[i].close.len() - 1) as nat,
                    }
                } else {
                    inert(state)
                },
                None => inert(state),
            },
        }
    }
}

impl Rule {
    /// The token of the matches that the rule emits.
    fn token(&self) -> (token: Option<Token>)
        ensures
            token is Some <==> self@.token() is Some,
            token is Some ==> token->0@ == self@.token()->0,
    {
        match self.kind {
            RuleKind::Delimiter => Some(Token::Delimiter(self.open, self.close)),
            RuleKind::LineComment => Some(Token::LineComment(self.open)),
            RuleKind::BlockComment => Some(Token::BlockComment(self.open, self.close)),
            RuleKind::String => None,
            RuleKind::BlockString => None,
            RuleKind::InlineSpan => Some(Token::InlineSpan(self.name, self.open, self.close)),
            RuleKind::BlockSpan => Some(Token::BlockSpan(self.name, self.open, self.close)),
        }
    }

    /// The state after the rule's opening marker.
    fn entered(&self) -> (state: State)
        ensures
            state@ == self@.entered(),
    {
        match self.kind {
            RuleKind::Delimiter => State::Normal,
            RuleKind::LineComment => State::InLineComment,
            RuleKind::BlockComment => State::InBlockComment(self.close),
            RuleKind::String => State::InString(self.close),
            RuleKind::BlockString => State::InBlockString(self.close),
            RuleKind::InlineSpan => State::InInlineSpan(self.name),
            RuleKind::BlockSpan => State::InBlockSpan(self.name),
        }
    }

    /// Whether the rule is the one whose closing marker ends the given state.
    fn closes(&self, state: State) -> (r: bool)
        ensures
            r == self@.closes(state@),
    {
        match state {
            State::InBlockComment(close) => self.kind == RuleKind::BlockComment && str_eq(
                self.close,
                close,
            ),
            State::InInlineSpan(name) => self.kind == RuleKind::InlineSpan && str_eq(
                self.name,
                name,
            ),
            State::InBlockSpan(name) => self.kind == RuleKind::BlockSpan && str_eq(self.name, name),
            _ => false,
        }
    }
}

/// Whether a marker holds a newline.
fn has_newline(bytes: &[u8]) -> (r: bool)
    ensures
        r == !(forall|k: int| 0 <= k < bytes@.len() ==> #[trigger] bytes@[k] != NEWLINE),
{
    let mut k: usize = 0;
    while k < bytes.len()
        invariant
            k <= bytes.len(),
            forall|j: int| 0 <= j < k ==> #[trigger] bytes@[j] != NEWLINE,
        decreases bytes.len() - k,
    {
        if bytes[k] == NEWLINE {
            return true;
        }
        k += 1;
    }
    false
}

/// Whether `marker` stands at `token`, read ahead in the stream without
/// taking anything from it.
fn stands_at(tokens: &mut Tokens, token: CharPos, marker: &str) -> (r: bool)
    requires
        peeked(*old(tokens)) == 0,
    ensures
        r == marker_at(marker.spec_bytes(), token, pending(*old(tokens))),
        pending(*final(tokens)) == pending(*old(tokens)),
        peeked(*final(tokens)) == 0,
{
    let bytes = marker.as_bytes();
    if bytes.len() == 0 || bytes[0] != token.0 || has_newline(bytes) {
        return false;
    }
    let ghost rest = pending(*tokens);
    let mut k: usize = 1;
    while k < bytes.len()
        invariant
            1 <= k <= bytes.len(),
            bytes@ == marker.spec_bytes(),
            bytes@[0] == token.0,
            rest == pending(*old(tokens)),
            pending(*tokens) == rest,
            peeked(*tokens) == k - 1,
            k - 1 <= rest.len(),
            forall|j: int|
                1 <= j < k ==> (#[trigger] rest[j - 1]).0 == bytes@[j] && rest[j - 1].1 == token.1
                    + j,
        decreases bytes.len() - k,
    {
        let ahead = peek_token(tokens);
        let found = match ahead {
            Some((byte, col)) => byte == bytes[k] && col >= token.1 && col - token.1 == k,
            None => false,
        };
        if !found {
            reset_peek(tokens);
            return false;
        }
        k += 1;
    }
    reset_peek(tokens);
    true
}

/// Takes `n` tokens from the stream.
fn take_tokens(tokens: &mut Tokens, n: usize)
    requires
        n <= pending(*old(tokens)).len(),
    ensures
        pending(*final(tokens)) == pending(*old(tokens)).skip(n as int),
        peeked(*final(tokens)) == 0,
{
    let ghost before = pending(*tokens);
    reset_peek(tokens);
    let mut i: usize = 0;
    while i < n
        invariant
            i <= n <= before.len(),
            pending(*tokens) == before.skip(i as int),
            peeked(*tokens) == 0,
        decreases n - i,
    {
        let _ = next_token(tokens);
        assert(before.skip(i as int).drop_first() == before.skip(i + 1));
        i += 1;
    }
}

/// The rules of one language, in the order in which they are tried.
pub struct Matcher {
    pub rules: Vec<Rule>,
}

impl View for Matcher {
    type V = Seq<RuleView>;

    open spec fn view(&self) -> Seq<RuleView> {
        rule_views(self.rules@)
    }
}

/// The bytes of all markers of the given rules.
pub open spec fn marker_bytes(rules: Seq<RuleView>) -> Seq<u8>
    decreases rules.len(),
{
    if rules.len() == 0 {
        Seq::empty()
    } else {
        marker_bytes(rules.drop_last()) + rules.last().open + rules.last().close
    }
}

impl Matcher {
    /// The bytes that the tokenizer has to hand on for this matcher: every
    /// byte of every marker.
    pub fn tokens(&self) -> (interest: Vec<u8>)
        ensures
            interest@ == marker_bytes(self@),
    {
        let mut interest: Vec<u8> = Vec::new();
        let mut i: usize = 0;
        proof {
            assert(self@.take(0) == Seq::<RuleView>::empty());
        }
        while i < self.rules.len()
            invariant
                i <= self.rules.len(),
                interest@ == marker_bytes(self@.take(i as int)),
            decreases self.rules.len() - i,
        {
            let rule = self.rules[i];
            proof {
                assert(self@.take(i + 1).drop_last() == self@.take(i as int));
                assert(self@.take(i + 1).last() == rule@);
            }
            interest.extend_from_slice(rule.open.as_bytes());
            interest.extend_from_slice(rule.close.as_bytes());
            i += 1;
        }
        proof {
            assert(self@.take(i as int) == self@);
        }
        interest
    }

    /// The first rule that fires at `token`, and with which end.
    fn firing(&self, tokens: &mut Tokens, token: CharPos) -> (found: Option<(usize, Kind)>)
        requires
            peeked(*old(tokens)) == 0,
        ensures
            pending(*final(tokens)) == pending(*old(tokens)),
            peeked(*final(tokens)) == 0,
            found is Some <==> first_firing(self@, token, pending(*old(tokens)), 0) is Some,
            found matches Some((i, kind)) ==> i < self.rules.len() && first_firing(
                self@,
                token,
                pending(*old(tokens)),
                0,
            ) == Some(i as int) && self@[i as int].fires(token, pending(*old(tokens))) == Some(
                kind,
            ),
    {
        let ghost rest = pending(*tokens);
        let mut i: usize = 0;
        while i < self.rules.len()
            invariant
                i <= self.rules.len(),
                rest == pending(*old(tokens)),
                pending(*tokens) == rest,
                peeked(*tokens) == 0,
                first_firing(self@, token, rest, i as int) == first_firing(self@, token, rest, 0),
            decreases self.rules.len() - i,
        {
            let rule = self.rules[i];
            assert(self@[i as int] == rule@);
            if stands_at(tokens, token, rule.open) {
                let kind = if rule.kind == RuleKind::LineComment {
                    Kind::NonPair
                } else {
                    Kind::Opening
                };
                return Some((i, kind));
            }
            if rule.kind == RuleKind::Delimiter && stands_at(tokens, token, rule.close) {
                return Some((i, Kind::Closing));
            }
            i += 1;
        }
        None
    }

    /// The first rule whose closing marker ends `state`.
    fn closer(&self, state: State) -> (found: Option<usize>)
        ensures
            found is Some <==> first_closer(self@, state@, 0) is Some,
            found matches Some(i) ==> i < self.rules.len() && first_closer(self@, state@, 0)
                == Some(i as int),
    {
        let mut i: usize = 0;
        while i < self.rules.len()
            invariant
                i <= self.rules.len(),
                first_closer(self@, state@, i as int) == first_closer(self@, state@, 0),
            decreases self.rules.len() - i,
        {
            let rule = self.rules[i];
            assert(self@[i as int] == rule@);
            if rule.closes(state) {
                return Some(i);
            }
            i += 1;
        }
        None
    }

    /// Adds to `matches` the match that a rule emits for one of its ends.
    fn emit(matches: &mut Vec<Match>, rule: &Rule, kind: Kind, col: usize)
        ensures
            match_views(final(matches)@) == match_views(old(matches)@) + match emitted_by(
                rule@,
                kind,
                col,
            ) {
                Some(m) => seq![m],
                None => Seq::empty(),
            },
    {
        match rule.token() {
            Some(token) => {
                let m = Match { kind, token, col, stack_height: None };
                matches.push(m);
                assert(match_views(matches@) == match_views(old(matches)@).push(m@));
                assert(match_views(old(matches)@).push(m@) == match_views(old(matches)@) + seq![
                    m@,
                ]);
            },
            None => {
                assert(match_views(old(matches)@) + Seq::<MatchView>::empty() == match_views(
                    old(matches)@,
                ));
            },
        }
    }

    /// One step of the matcher: reads `token` in `state`, with the tokens
    /// after it at hand in `tokens`. It takes from the stream the further
    /// tokens of a marker it recognises, adds the marker's match to `matches`
    /// and returns the state that follows. Whatever was read ahead in the
    /// stream before counts as not read.
    pub fn step(
        &self,
        matches: &mut Vec<Match>,
        tokens: &mut Tokens,
        state: State,
        token: CharPos,
        escaped: bool,
    ) -> (next: State)
        ensures
            ({
                let outcome = step_spec(self@, state@, token, pending(*old(tokens)), escaped);
                &&& next@ == outcome.state
                &&& match_views(final(matches)@) == match_views(old(matches)@) + match outcome.emitted {
                    Some(m) => seq![m],
                    None => Seq::empty(),
                }
                &&& outcome.consumed <= pending(*old(tokens)).len()
                &&& pending(*final(tokens)) == pending(*old(tokens)).skip(outcome.consumed as int)
            }),
            peeked(*final(tokens)) == 0,
    {
        let ghost rest = pending(*tokens);
        proof {
            assert(match_views(matches@) + Seq::<MatchView>::empty() == match_views(matches@));
            assert(rest.skip(0) == rest);
        }
        reset_peek(tokens);
        if escaped {
            return state;
        }
        match state {
            State::Normal => {
                match self.firing(tokens, token) {
                    Some((i, kind)) => {
                        let rule = self.rules[i];
                        assert(self@[i as int] == rule@);
                        Self::emit(matches, &rule, kind, token.1);
                        if kind == Kind::Closing {
                            take_tokens(tokens, rule.close.as_bytes().len() - 1);
                            State::Normal
                        } else {
                            take_tokens(tokens, rule.open.as_bytes().len() - 1);
                            rule.entered()
                        }
                    },
                    None => state,
                }
            },
            State::InString(close) | State::InBlockString(close) => {
                if stands_at(tokens, token, close) {
                    take_tokens(tokens, close.as_bytes().len() - 1);
                    State::Normal
                } else {
                    state
                }
            },
            State::InLineComment => state,
            _ => {
                match self.closer(state) {
                    Some(i) => {
                        let rule = self.rules[i];
                        assert(self@[i as int] == rule@);
                        if stands_at(tokens, token, rule.close) {
                            Self::emit(matches, &rule, Kind::Closing, token.1);
                            take_tokens(tokens, rule.close.as_bytes().len() - 1);
                            State::Normal
                        } else {
                            state
                        }
                    },
                    None => state,
                }
            },
        }
    }
}

} // verus!
