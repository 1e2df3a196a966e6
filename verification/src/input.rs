//! The token alphabet and the stream adapter that flattens a nested token
//! tree into a flat, positionally ordered token stream.

use vstd::prelude::*;

verus! {

/// Declares `proc_macro2::Span` so that library types can carry the host's
/// opaque source-location handles. Nothing is assumed about a span's value;
/// spans are read-only metadata carried along with every token.
#[verifier::external_type_specification]
#[verifier::external_body]
pub struct ExSpan(proc_macro2::Span);

/// The delimiter kind of a group: three surface delimiter pairs plus
/// invisible grouping, which carries no surface character at all.
#[derive(Clone, Copy, Debug, PartialEq, Eq, Structural)]
pub enum Delimiter {
    Parenthesis,
    Brace,
    Bracket,
    Invisible,
}

/// The opening surface character of a delimiter kind, if it has one.
pub open spec fn open_char(d: Delimiter) -> Option<char> {
    match d {
        Delimiter::Parenthesis => Some('('),
        Delimiter::Brace => Some('{'),
        Delimiter::Bracket => Some('['),
        Delimiter::Invisible => None,
    }
}

/// The closing surface character of a delimiter kind, if it has one.
pub open spec fn close_char(d: Delimiter) -> Option<char> {
    match d {
        Delimiter::Parenthesis => Some(')'),
        Delimiter::Brace => Some('}'),
        Delimiter::Bracket => Some(']'),
        Delimiter::Invisible => None,
    }
}

/// An identifier leaf: its rendered text plus the host's location handle.
pub struct Ident {
    pub text: String,
    pub span: proc_macro2::Span,
}

/// A literal leaf (string, number, ...): its rendered text plus location.
pub struct Literal {
    pub text: String,
    pub span: proc_macro2::Span,
}

/// A punctuation leaf: its character plus location.
pub struct Punct {
    pub ch: char,
    pub span: proc_macro2::Span,
}

/// One node of the host's nested token tree: a leaf, or a delimited group
/// of child trees.
pub enum TokenTree {
    Ident(Ident),
    Literal(Literal),
    Punct(Punct),
    Group(Delimiter, Vec<TokenTree>, proc_macro2::Span),
}

/// The mathematical model of a flattened token: what a matcher can observe.
pub enum TokenV {
    Delim(char, proc_macro2::Span),
    Punct(char, proc_macro2::Span),
    Ident(Seq<char>, proc_macro2::Span),
    Literal(Seq<char>, proc_macro2::Span),
}

/// The mathematical model of one tree node.
pub enum TreeV {
    Ident(Seq<char>, proc_macro2::Span),
    Literal(Seq<char>, proc_macro2::Span),
    Punct(char, proc_macro2::Span),
    Group(Delimiter, Seq<TreeV>, proc_macro2::Span),
}

impl View for Ident {
    type V = TokenV;

    open spec fn view(&self) -> TokenV {
        TokenV::Ident(self.text@, self.span)
    }
}

impl View for Literal {
    type V = TokenV;

    open spec fn view(&self) -> TokenV {
        TokenV::Literal(self.text@, self.span)
    }
}

impl View for Punct {
    type V = TokenV;

    open spec fn view(&self) -> TokenV {
        TokenV::Punct(self.ch, self.span)
    }
}

/// The model of one tree node.
pub open spec fn tree_view(t: TokenTree) -> TreeV
    decreases t,
{
    match t {
        TokenTree::Ident(i) => TreeV::Ident(i.text@, i.span),
        TokenTree::Literal(l) => TreeV::Literal(l.text@, l.span),
        TokenTree::Punct(p) => TreeV::Punct(p.ch, p.span),
        TokenTree::Group(d, children, span) => TreeV::Group(d, trees_view(children@), span),
    }
}

/// The model of a sequence of sibling tree nodes.
pub open spec fn trees_view(ts: Seq<TokenTree>) -> Seq<TreeV>
    decreases ts,
{
    if ts.len() == 0 {
        Seq::empty()
    } else {
        seq![tree_view(ts[0])] + trees_view(ts.subrange(1, ts.len() as int))
    }
}

impl View for TokenTree {
    type V = TreeV;

    open spec fn view(&self) -> TreeV {
        tree_view(*self)
    }
}

/// The sequence of delimiter tokens that opening a group of kind `d` emits:
/// one open token, or none for invisible grouping.
pub open spec fn open_toks(d: Delimiter, span: proc_macro2::Span) -> Seq<TokenV> {
    match open_char(d) {
        Some(c) => seq![TokenV::Delim(c, span)],
        None => Seq::empty(),
    }
}

/// The sequence of delimiter tokens that closing a group of kind `d` emits.
pub open spec fn close_toks(d: Delimiter, span: proc_macro2::Span) -> Seq<TokenV> {
    match close_char(d) {
        Some(c) => seq![TokenV::Delim(c, span)],
        None => Seq::empty(),
    }
}

/// The flat token stream of one tree: a leaf is itself; a group is its open
/// delimiter, then its flattened children, then its close delimiter.
pub open spec fn flat(t: TreeV) -> Seq<TokenV>
    decreases t, 0int,
{
    match t {
        TreeV::Ident(text, span) => seq![TokenV::Ident(text, span)],
        TreeV::Literal(text, span) => seq![TokenV::Literal(text, span)],
        TreeV::Punct(ch, span) => seq![TokenV::Punct(ch, span)],
        TreeV::Group(d, children, span) => open_toks(d, span) + flat_seq(children) + close_toks(
            d,
            span,
        ),
    }
}

/// The flat token stream of a sequence of sibling trees, in order.
pub open spec fn flat_seq(ts: Seq<TreeV>) -> Seq<TokenV>
    decreases ts, 1int,
{
    if ts.len() == 0 {
        Seq::empty()
    } else {
        flat(ts[0]) + flat_seq(ts.subrange(1, ts.len() as int))
    }
}

proof fn lemma_trees_view_index(ts: Seq<TokenTree>)
    ensures
        trees_view(ts).len() == ts.len(),
        forall|i: int| 0 <= i < ts.len() ==> trees_view(ts)[i] == tree_view(ts[i]),
    decreases ts,
{
    if ts.len() > 0 {
        lemma_trees_view_index(ts.subrange(1, ts.len() as int));
    }
}

/// A flattened token: what `produce_next` hands out, one at a time.
pub enum Token {
    Delim(char, proc_macro2::Span),
    Punct(Punct),
    Ident(Ident),
    Literal(Literal),
}

impl View for Token {
    type V = TokenV;

    open spec fn view(&self) -> TokenV {
        match self {
            Token::Delim(c, span) => TokenV::Delim(*c, *span),
            Token::Punct(p) => p@,
            Token::Ident(i) => i@,
            Token::Literal(l) => l@,
        }
    }
}

impl TokenV {
    /// The location handle carried by a token.
    pub open spec fn span(self) -> proc_macro2::Span {
        match self {
            TokenV::Delim(_, span) => span,
            TokenV::Punct(_, span) => span,
            TokenV::Ident(_, span) => span,
            TokenV::Literal(_, span) => span,
        }
    }
}

/// Token equality: by rendered textual form, except delimiters, which are
/// compared by their delimiter character alone. Locations never participate.
pub open spec fn token_eq(a: TokenV, b: TokenV) -> bool {
    match (a, b) {
        (TokenV::Delim(l, _), TokenV::Delim(r, _)) => l == r,
        (TokenV::Punct(l, _), TokenV::Punct(r, _)) => l == r,
        (TokenV::Ident(l, _), TokenV::Ident(r, _)) => l == r,
        (TokenV::Literal(l, _), TokenV::Literal(r, _)) => l == r,
        _ => false,
    }
}

impl Token {
    /// The character of a delimiter or punctuation token; leaves with no
    /// single-character form have none.
    pub fn to_char(&self) -> (r: Option<char>)
        ensures
            r == (match self@ {
                TokenV::Delim(c, _) => Some(c),
                TokenV::Punct(c, _) => Some(c),
                _ => None::<char>,
            }),
    {
        match self {
            Token::Delim(ch, _) => Some(*ch),
            Token::Punct(p) => Some(p.ch),
            _ => None,
        }
    }

    /// The location handle of this token.
    pub fn span(&self) -> (r: proc_macro2::Span)
        ensures
            r == self@.span(),
    {
        match self {
            Token::Delim(_, span) => *span,
            Token::Punct(p) => p.span,
            Token::Ident(i) => i.span,
            Token::Literal(l) => l.span,
        }
    }
}

impl Clone for Ident {
    fn clone(&self) -> (r: Self)
        ensures
            r@ == self@,
    {
        Ident { text: self.text.clone(), span: self.span }
    }
}

impl Clone for Literal {
    fn clone(&self) -> (r: Self)
        ensures
            r@ == self@,
    {
        Literal { text: self.text.clone(), span: self.span }
    }
}

impl Clone for Punct {
    fn clone(&self) -> (r: Self)
        ensures
            r@ == self@,
    {
        Punct { ch: self.ch, span: self.span }
    }
}

impl Clone for Token {
    fn clone(&self) -> (r: Self)
        ensures
            r@ == self@,
    {
        match self {
            Token::Delim(c, span) => Token::Delim(*c, *span),
            Token::Punct(p) => Token::Punct(p.clone()),
            Token::Ident(i) => Token::Ident(i.clone()),
            Token::Literal(l) => Token::Literal(l.clone()),
        }
    }
}

impl PartialEq for Token {
    fn eq(&self, other: &Token) -> (r: bool) {
        match (self, other) {
            (Token::Delim(l, _), Token::Delim(r, _)) => *l == *r,
            (Token::Punct(l), Token::Punct(r)) => l.ch == r.ch,
            (Token::Ident(l), Token::Ident(r)) => l.text == r.text,
            (Token::Literal(l), Token::Literal(r)) => l.text == r.text,
            _ => false,
        }
    }
}

impl vstd::std_specs::cmp::PartialEqSpecImpl for Token {
    open spec fn obeys_eq_spec() -> bool {
        true
    }

    open spec fn eq_spec(&self, other: &Token) -> bool {
        token_eq(self@, other@)
    }
}

/// Relies on `proc_macro2::Span::call_site`: some location handle for the
/// macro call site. Nothing is assumed about its value.
#[verifier::external_body]
fn call_site() -> proc_macro2::Span {
    proc_macro2::Span::call_site()
}

/// An ordering-comparable stream position: how many tokens have been
/// consumed, plus the source location of the most recently consumed token.
/// Ordered solely by the ordinal counter; the location is carried only for
/// display and never takes part in comparisons.
pub struct SpanPosition {
    pos: usize,
    span: proc_macro2::Span,
}

impl SpanPosition {
    /// The ordinal counter: how far into the stream this position lies.
    pub closed spec fn ordinal(self) -> nat {
        self.pos as nat
    }

    /// The carried location handle.
    pub closed spec fn location(self) -> proc_macro2::Span {
        self.span
    }

    /// A position at the given ordinal, annotated with the given location.
    pub fn new(pos: usize, span: proc_macro2::Span) -> (r: SpanPosition)
        ensures
            r.ordinal() == pos,
            r.location() == span,
    {
        SpanPosition { pos, span }
    }

    /// Records one produced token: the ordinal grows by one and the
    /// location becomes that token's. The ordinal must still have room;
    /// that is a machine limit.
    pub fn advance(&mut self, tok: &Token)
        requires
            old(self).ordinal() < usize::MAX,
        ensures
            final(self).ordinal() == old(self).ordinal() + 1,
            final(self).location() == tok@.span(),
    {
        self.pos = self.pos + 1;
        self.span = tok.span();
    }

    /// The source location annotation of this position.
    pub fn into_span(&self) -> (r: proc_macro2::Span)
        ensures
            r == self.location(),
    {
        self.span
    }
}

impl Default for SpanPosition {
    /// The position before any token has been consumed, located at the
    /// macro call site.
    fn default() -> (r: SpanPosition)
        ensures
            r.ordinal() == 0,
    {
        SpanPosition { pos: 0, span: call_site() }
    }
}

impl PartialEq for SpanPosition {
    fn eq(&self, other: &SpanPosition) -> (r: bool) {
        self.pos == other.pos
    }
}

impl vstd::std_specs::cmp::PartialEqSpecImpl for SpanPosition {
    open spec fn obeys_eq_spec() -> bool {
        true
    }

    open spec fn eq_spec(&self, other: &SpanPosition) -> bool {
        self.ordinal() == other.ordinal()
    }
}

impl PartialOrd for SpanPosition {
    fn partial_cmp(&self, other: &SpanPosition) -> (r: Option<core::cmp::Ordering>) {
        if self.pos < other.pos {
            Some(core::cmp::Ordering::Less)
        } else if self.pos == other.pos {
            Some(core::cmp::Ordering::Equal)
        } else {
            Some(core::cmp::Ordering::Greater)
        }
    }
}

impl vstd::std_specs::cmp::PartialOrdSpecImpl for SpanPosition {
    open spec fn obeys_partial_cmp_spec() -> bool {
        true
    }

    open spec fn partial_cmp_spec(&self, other: &SpanPosition) -> Option<core::cmp::Ordering> {
        if self.ordinal() < other.ordinal() {
            Some(core::cmp::Ordering::Less)
        } else if self.ordinal() == other.ordinal() {
            Some(core::cmp::Ordering::Equal)
        } else {
            Some(core::cmp::Ordering::Greater)
        }
    }
}

/// One entry of the flattening stack: the remaining children of one nesting
/// level (held in reverse order, so that the next child is the last element)
/// plus the pending close delimiter to emit once they are exhausted (`None`
/// for the top level and for invisible groups).
struct Frame {
    rev_children: Vec<TokenTree>,
    close: Option<(Delimiter, proc_macro2::Span)>,
}

impl Frame {
    /// The remaining children of this level, in stream order.
    spec fn rem(self) -> Seq<TreeV> {
        Seq::new(
            self.rev_children@.len(),
            |i: int| tree_view(self.rev_children@[self.rev_children@.len() - 1 - i]),
        )
    }

    /// The pending close tokens of this level: one, or none.
    spec fn pending(self) -> Seq<TokenV> {
        match self.close {
            Some((d, span)) => close_toks(d, span),
            None => Seq::empty(),
        }
    }

    /// All tokens this level still contributes to the stream.
    spec fn toks(self) -> Seq<TokenV> {
        flat_seq(self.rem()) + self.pending()
    }

    /// A pending close always belongs to a surface delimiter kind.
    spec fn wf(self) -> bool {
        match self.close {
            Some((d, _)) => d != Delimiter::Invisible,
            None => true,
        }
    }
}

/// The tokens still to come from a stack of frames, innermost level first.
spec fn frames_toks(fs: Seq<Frame>) -> Seq<TokenV>
    decreases fs.len(),
{
    if fs.len() == 0 {
        Seq::empty()
    } else {
        fs.last().toks() + frames_toks(fs.drop_last())
    }
}

/// Wraps reconstructed content back into a group node when the frame it came
/// from still owes a close delimiter; invisible and top-level content is
/// spliced unchanged.
spec fn wrap(close: Option<(Delimiter, proc_macro2::Span)>, content: Seq<TreeV>) -> Seq<TreeV> {
    match close {
        Some((d, span)) => seq![TreeV::Group(d, content, span)],
        None => content,
    }
}

/// The nested tree content still unread in a stack of frames, wrapped
/// around a seed standing for content nested even deeper: every still-open
/// level's remaining children, innermost levels re-wrapped in their group
/// nodes and outer levels wrapped around inner ones.
spec fn reconstruct_from(fs: Seq<Frame>, seed: Seq<TreeV>) -> Seq<TreeV>
    decreases fs.len(),
{
    if fs.len() == 0 {
        seed
    } else {
        wrap(fs[0].close, reconstruct_from(fs.drop_first(), seed) + fs[0].rem())
    }
}

/// Reconstruction can also be computed innermost frame first, folding each
/// level into the seed.
proof fn lemma_reconstruct_from_step(fs: Seq<Frame>, seed: Seq<TreeV>)
    requires
        fs.len() > 0,
    ensures
        reconstruct_from(fs, seed) == reconstruct_from(
            fs.drop_last(),
            wrap(fs.last().close, seed + fs.last().rem()),
        ),
    decreases fs.len(),
{
    let seed2 = wrap(fs.last().close, seed + fs.last().rem());
    if fs.len() == 1 {
        assert(fs.drop_first() =~= Seq::<Frame>::empty());
        assert(fs.drop_last() =~= Seq::<Frame>::empty());
        assert(fs[0] == fs.last());
        assert(reconstruct_from(Seq::<Frame>::empty(), seed) == seed);
        assert(reconstruct_from(fs, seed) == wrap(fs[0].close, seed + fs[0].rem()));
        assert(reconstruct_from(fs.drop_last(), seed2) == seed2);
    } else {
        let rest = fs.drop_first();
        lemma_reconstruct_from_step(rest, seed);
        assert(rest.last() == fs.last());
        assert(reconstruct_from(rest, seed) == reconstruct_from(rest.drop_last(), seed2));
        assert(rest.drop_last() =~= fs.drop_last().drop_first());
        assert(fs.drop_last()[0] == fs[0]);
        assert(fs.drop_last().len() > 0);
        assert(reconstruct_from(fs.drop_last(), seed2) == wrap(
            fs[0].close,
            reconstruct_from(rest.drop_last(), seed2) + fs[0].rem(),
        ));
        assert(reconstruct_from(fs, seed) == wrap(
            fs[0].close,
            reconstruct_from(rest, seed) + fs[0].rem(),
        ));
    }
}

/// The number of nodes in one tree; a measure for the flattening loop.
spec fn tree_size(t: TreeV) -> nat
    decreases t, 0int,
{
    match t {
        TreeV::Group(_, children, _) => 1 + seq_size(children),
        _ => 1,
    }
}

/// The number of nodes in a sequence of sibling trees.
spec fn seq_size(ts: Seq<TreeV>) -> nat
    decreases ts, 1int,
{
    if ts.len() == 0 {
        0
    } else {
        tree_size(ts[0]) + seq_size(ts.subrange(1, ts.len() as int))
    }
}

spec fn frame_size(f: Frame) -> nat {
    1 + 2 * seq_size(f.rem())
}

spec fn stack_size(fs: Seq<Frame>) -> nat
    decreases fs.len(),
{
    if fs.len() == 0 {
        0
    } else {
        frame_size(fs.last()) + stack_size(fs.drop_last())
    }
}

/// Popping the next child off the top frame removes the head of its
/// remaining-children sequence.
proof fn lemma_frame_pop_child(pre: Frame, now: Frame)
    requires
        pre.rev_children@.len() > 0,
        now.rev_children@ == pre.rev_children@.drop_last(),
    ensures
        pre.rem().len() == pre.rev_children@.len(),
        pre.rem()[0] == tree_view(pre.rev_children@.last()),
        now.rem() == pre.rem().subrange(1, pre.rem().len() as int),
{
    assert(now.rem() =~= pre.rem().subrange(1, pre.rem().len() as int));
}

/// After handing out a leaf from the top frame, the stack's token stream
/// has lost exactly that leaf's token.
proof fn lemma_toks_after_leaf(pre: Seq<Frame>, now: Seq<Frame>)
    requires
        pre.len() > 0,
        now.len() == pre.len(),
        now.drop_last() == pre.drop_last(),
        now.last().close == pre.last().close,
        pre.last().rev_children@.len() > 0,
        now.last().rev_children@ == pre.last().rev_children@.drop_last(),
    ensures
        pre.last().rem().len() > 0,
        pre.last().rem()[0] == tree_view(pre.last().rev_children@.last()),
        frames_toks(pre) == flat(pre.last().rem()[0]) + frames_toks(now),
        stack_size(now) < stack_size(pre),
{
    lemma_frame_pop_child(pre.last(), now.last());
    let rem = pre.last().rem();
    assert(frames_toks(pre) =~= flat(rem[0]) + frames_toks(now)) by {
        assert(flat_seq(rem) == flat(rem[0]) + flat_seq(rem.subrange(1, rem.len() as int)));
        assert(pre.last().toks() =~= flat(rem[0]) + now.last().toks());
        assert(frames_toks(pre) == pre.last().toks() + frames_toks(pre.drop_last()));
        assert(frames_toks(now) == now.last().toks() + frames_toks(now.drop_last()));
    }
    assert(stack_size(now) < stack_size(pre)) by {
        assert(seq_size(rem) == tree_size(rem[0]) + seq_size(rem.subrange(1, rem.len() as int)));
        assert(tree_size(rem[0]) >= 1);
        assert(stack_size(pre) == frame_size(pre.last()) + stack_size(pre.drop_last()));
        assert(stack_size(now) == frame_size(now.last()) + stack_size(now.drop_last()));
    }
}

/// After entering a group from the top frame (pushing a fresh frame for its
/// children), the stack's token stream has lost exactly the group's open
/// delimiter tokens, and the stack measure has shrunk.
proof fn lemma_toks_after_group(
    pre: Seq<Frame>,
    now: Seq<Frame>,
    d: Delimiter,
    span: proc_macro2::Span,
    ch: Seq<TreeV>,
)
    requires
        pre.len() > 0,
        pre.last().rev_children@.len() > 0,
        tree_view(pre.last().rev_children@.last()) == TreeV::Group(d, ch, span),
        now.len() == pre.len() + 1,
        now.drop_last().drop_last() == pre.drop_last(),
        now[now.len() - 2].close == pre.last().close,
        now[now.len() - 2].rev_children@ == pre.last().rev_children@.drop_last(),
        now.last().rem() == ch,
        now.last().close == (match d {
            Delimiter::Invisible => None,
            _ => Some((d, span)),
        }),
    ensures
        frames_toks(pre) == open_toks(d, span) + frames_toks(now),
        stack_size(now) < stack_size(pre),
{
    let mid = now[now.len() - 2];
    let g = now.last();
    lemma_frame_pop_child(pre.last(), mid);
    let rem = pre.last().rem();
    let rem1 = rem.subrange(1, rem.len() as int);
    assert(now.drop_last().last() == mid);
    assert(g.pending() == close_toks(d, span));
    assert(frames_toks(now) == g.toks() + frames_toks(now.drop_last()));
    assert(frames_toks(now.drop_last()) == mid.toks() + frames_toks(now.drop_last().drop_last()));
    assert(frames_toks(pre) == pre.last().toks() + frames_toks(pre.drop_last()));
    assert(flat_seq(rem) == flat(rem[0]) + flat_seq(rem1));
    assert(flat(rem[0]) == open_toks(d, span) + flat_seq(ch) + close_toks(d, span));
    assert(pre.last().toks() == flat_seq(rem) + pre.last().pending());
    assert(g.toks() == flat_seq(ch) + close_toks(d, span));
    assert(mid.toks() == flat_seq(rem1) + pre.last().pending());
    assert(frames_toks(pre) =~= open_toks(d, span) + frames_toks(now));
    assert(stack_size(now) < stack_size(pre)) by {
        assert(seq_size(rem) == tree_size(rem[0]) + seq_size(rem1));
        assert(tree_size(rem[0]) == 1 + seq_size(ch));
        assert(stack_size(pre) == frame_size(pre.last()) + stack_size(pre.drop_last()));
        assert(stack_size(now) == frame_size(g) + stack_size(now.drop_last()));
        assert(stack_size(now.drop_last()) == frame_size(mid) + stack_size(
            now.drop_last().drop_last(),
        ));
        assert(frame_size(g) == 1 + 2 * seq_size(ch));
        assert(frame_size(mid) == 1 + 2 * seq_size(rem1));
        assert(frame_size(pre.last()) == 1 + 2 * (1 + seq_size(ch) + seq_size(rem1)));
    }
}

/// Reverses the order of a vector of trees.
fn reversed(trees: Vec<TokenTree>) -> (rev: Vec<TokenTree>)
    ensures
        rev@.len() == trees@.len(),
        forall|j: int| 0 <= j < rev@.len() ==> rev@[j] == trees@[trees@.len() - 1 - j],
{
    let ghost orig = trees@;
    let mut trees = trees;
    let mut rev: Vec<TokenTree> = Vec::new();
    while trees.len() > 0
        invariant
            trees@.len() + rev@.len() == orig.len(),
            trees@ == orig.subrange(0, trees@.len() as int),
            forall|j: int| 0 <= j < rev@.len() ==> rev@[j] == orig[orig.len() - 1 - j],
        decreases trees@.len(),
    {
        let t = trees.pop().unwrap();
        proof {
            assert(trees@ =~= orig.subrange(0, trees@.len() as int));
        }
        rev.push(t);
    }
    rev
}

/// The opening surface character of a delimiter kind, executably.
fn open_char_ex(d: Delimiter) -> (r: Option<char>)
    ensures
        r == open_char(d),
{
    match d {
        Delimiter::Parenthesis => Some('('),
        Delimiter::Brace => Some('{'),
        Delimiter::Bracket => Some('['),
        Delimiter::Invisible => None,
    }
}

/// The closing surface character of a surface delimiter kind, executably.
fn close_char_ex(d: Delimiter) -> (r: char)
    requires
        d != Delimiter::Invisible,
    ensures
        close_char(d) == Some(r),
{
    match d {
        Delimiter::Parenthesis => ')',
        Delimiter::Brace => '}',
        Delimiter::Bracket => ']',
        Delimiter::Invisible => {
            proof {
                assert(false);
            }
            ')'
        }
    }
}

/// A deep copy of one tree, equal at the model level.
#[verifier::loop_isolation(false)]
fn clone_tree(t: &TokenTree) -> (r: TokenTree)
    ensures
        tree_view(r) == tree_view(*t),
    decreases *t,
{
    match t {
        TokenTree::Ident(node) => TokenTree::Ident(
            Ident { text: node.text.clone(), span: node.span },
        ),
        TokenTree::Literal(node) => TokenTree::Literal(
            Literal { text: node.text.clone(), span: node.span },
        ),
        TokenTree::Punct(node) => TokenTree::Punct(Punct { ch: node.ch, span: node.span }),
        TokenTree::Group(d, children, span) => {
            let mut copies: Vec<TokenTree> = Vec::new();
            let mut i: usize = 0;
            while i < children.len()
                invariant
                    0 <= i <= children@.len(),
                    copies@.len() == i,
                    forall|j: int|
                        0 <= j < i ==> tree_view(#[trigger] copies@[j]) == tree_view(
                            children@[j],
                        ),
                decreases children@.len() - i,
            {
                proof {
                    assert(decreases_to!(*t => children@[i as int]));
                }
                let c = clone_tree(&children[i]);
                copies.push(c);
                i = i + 1;
            }
            proof {
                lemma_trees_view_index(children@);
                lemma_trees_view_index(copies@);
                assert(trees_view(copies@) =~= trees_view(children@));
            }
            TokenTree::Group(*d, copies, *span)
        }
    }
}

/// True iff one tree contributes no tokens at all to the flattened stream:
/// an invisible group all of whose children are themselves blank.
#[verifier::loop_isolation(false)]
fn tree_is_blank(t: &TokenTree) -> (r: bool)
    ensures
        r == (flat(tree_view(*t)).len() == 0),
    decreases *t,
{
    match t {
        TokenTree::Ident(_) => false,
        TokenTree::Literal(_) => false,
        TokenTree::Punct(_) => false,
        TokenTree::Group(d, children, span) => {
            match d {
                Delimiter::Invisible => {
                    let ghost ch_v = trees_view(children@);
                    let mut i: usize = 0;
                    while i < children.len()
                        invariant
                            0 <= i <= children@.len(),
                            forall|j: int|
                                0 <= j < i ==> flat(
                                    tree_view(#[trigger] children@[j]),
                                ).len() == 0,
                        decreases children@.len() - i,
                    {
                        proof {
                            assert(decreases_to!(*t => children@[i as int]));
                        }
                        if !tree_is_blank(&children[i]) {
                            proof {
                                lemma_trees_view_index(children@);
                                assert(ch_v[i as int] == tree_view(children@[i as int]));
                                assert(flat(ch_v[i as int]).len() > 0);
                                lemma_flat_seq_empty(ch_v);
                                assert(flat_seq(ch_v).len() > 0);
                                assert(flat(tree_view(*t)) =~= flat_seq(ch_v));
                            }
                            return false;
                        }
                        i = i + 1;
                    }
                    proof {
                        lemma_trees_view_index(children@);
                        assert forall|j: int| 0 <= j < ch_v.len() implies flat(
                            #[trigger] ch_v[j],
                        ).len() == 0 by {
                            assert(ch_v[j] == tree_view(children@[j]));
                        }
                        lemma_flat_seq_empty(ch_v);
                        assert(flat(tree_view(*t)) =~= flat_seq(ch_v));
                    }
                    true
                }
                _ => {
                    proof {
                        assert(open_toks(tree_view(*t)->Group_0, tree_view(*t)->Group_2).len()
                            == 1);
                    }
                    false
                }
            }
        }
    }
}

/// A sequence of trees flattens to nothing iff each tree does.
proof fn lemma_flat_seq_empty(ts: Seq<TreeV>)
    ensures
        (flat_seq(ts).len() == 0) <==> (forall|i: int|
            0 <= i < ts.len() ==> flat(#[trigger] ts[i]).len() == 0),
    decreases ts,
{
    if ts.len() > 0 {
        let rest = ts.subrange(1, ts.len() as int);
        lemma_flat_seq_empty(rest);
        assert(forall|i: int| 0 <= i < rest.len() ==> #[trigger] rest[i] == ts[i + 1]);
        if flat_seq(ts).len() == 0 {
            assert(flat(ts[0]).len() == 0);
            assert(flat_seq(rest).len() == 0);
            assert forall|i: int| 0 <= i < ts.len() implies flat(#[trigger] ts[i]).len() == 0 by {
                if i > 0 {
                    assert(rest[i - 1] == ts[i]);
                    assert(flat(rest[i - 1]).len() == 0);
                }
            }
        }
        if forall|i: int| 0 <= i < ts.len() ==> flat(#[trigger] ts[i]).len() == 0 {
            assert forall|i: int| 0 <= i < rest.len() implies flat(#[trigger] rest[i]).len()
                == 0 by {
                assert(rest[i] == ts[i + 1]);
                assert(flat(ts[i + 1]).len() == 0);
            }
            assert(flat(ts[0]).len() == 0);
            assert(flat_seq(rest).len() == 0);
        }
    }
}

/// A stack of frames contributes no tokens iff each frame contributes none.
proof fn lemma_frames_toks_empty(fs: Seq<Frame>)
    ensures
        (frames_toks(fs).len() == 0) <==> (forall|i: int|
            0 <= i < fs.len() ==> (#[trigger] fs[i]).toks().len() == 0),
    decreases fs.len(),
{
    if fs.len() > 0 {
        let rest = fs.drop_last();
        lemma_frames_toks_empty(rest);
        assert(forall|i: int| 0 <= i < rest.len() ==> #[trigger] rest[i] == fs[i]);
        assert(fs.last() == fs[fs.len() - 1]);
        if frames_toks(fs).len() == 0 {
            assert(fs.last().toks().len() == 0);
            assert(frames_toks(rest).len() == 0);
            assert forall|i: int| 0 <= i < fs.len() implies (#[trigger] fs[i]).toks().len()
                == 0 by {
                if i < fs.len() - 1 {
                    assert(rest[i] == fs[i]);
                    assert(rest[i].toks().len() == 0);
                }
            }
        }
        if forall|i: int| 0 <= i < fs.len() ==> (#[trigger] fs[i]).toks().len() == 0 {
            assert forall|i: int| 0 <= i < rest.len() implies (#[trigger] rest[i]).toks().len()
                == 0 by {
                assert(rest[i] == fs[i]);
            }
            assert(fs.last().toks().len() == 0);
            assert(frames_toks(rest).len() == 0);
        }
    }
}

/// Frames that agree level by level on remaining children and pending close
/// contribute the same tokens and reconstruct the same trees.
proof fn lemma_frames_congruent(a: Seq<Frame>, b: Seq<Frame>)
    requires
        a.len() == b.len(),
        forall|i: int|
            0 <= i < a.len() ==> (#[trigger] a[i]).rem() == b[i].rem() && a[i].close == b[i].close,
    ensures
        frames_toks(a) == frames_toks(b),
        reconstruct_from(a, Seq::empty()) == reconstruct_from(b, Seq::empty()),
{
    lemma_frames_toks_congruent(a, b);
    lemma_reconstruct_congruent(a, b, Seq::empty());
}

proof fn lemma_frames_toks_congruent(a: Seq<Frame>, b: Seq<Frame>)
    requires
        a.len() == b.len(),
        forall|i: int|
            0 <= i < a.len() ==> (#[trigger] a[i]).rem() == b[i].rem() && a[i].close == b[i].close,
    ensures
        frames_toks(a) == frames_toks(b),
    decreases a.len(),
{
    if a.len() > 0 {
        lemma_frames_toks_congruent(a.drop_last(), b.drop_last());
        assert(a.last() == a[a.len() - 1]);
        assert(a.last().toks() == b.last().toks());
    }
}

proof fn lemma_reconstruct_congruent(a: Seq<Frame>, b: Seq<Frame>, seed: Seq<TreeV>)
    requires
        a.len() == b.len(),
        forall|i: int|
            0 <= i < a.len() ==> (#[trigger] a[i]).rem() == b[i].rem() && a[i].close == b[i].close,
    ensures
        reconstruct_from(a, seed) == reconstruct_from(b, seed),
    decreases a.len(),
{
    if a.len() > 0 {
        assert(forall|i: int|
            0 <= i < a.drop_first().len() ==> #[trigger] a.drop_first()[i] == a[i + 1]
                && b.drop_first()[i] == b[i + 1]);
        lemma_reconstruct_congruent(a.drop_first(), b.drop_first(), seed);
    }
}

/// The stream adapter: flattens a nested token tree lazily, one token per
/// `produce_next` call, tracking how many tokens have been consumed.
pub struct Input {
    stack: Vec<Frame>,
    pos: usize,
}

impl Input {
    /// The flat sequence of tokens still to be produced.
    pub closed spec fn toks(self) -> Seq<TokenV> {
        frames_toks(self.stack@)
    }

    /// How many tokens have been produced so far.
    pub closed spec fn pos(self) -> nat {
        self.pos as nat
    }

    /// The still-unread content, as nested trees.
    pub closed spec fn unread(self) -> Seq<TreeV> {
        reconstruct_from(self.stack@, Seq::empty())
    }

    /// Structural well-formedness: every pending close is a surface delimiter.
    pub closed spec fn wf(self) -> bool {
        forall|i: int| 0 <= i < self.stack@.len() ==> (#[trigger] self.stack@[i]).wf()
    }

    /// Wraps a host-supplied token tree as a single-frame stack. No upfront
    /// flattening work happens here; flattening is lazy, one token at a time.
    pub fn from_tree(trees: Vec<TokenTree>) -> (r: Input)
        ensures
            r.wf(),
            r.pos() == 0,
            r.toks() == flat_seq(trees_view(trees@)),
            r.unread() == trees_view(trees@),
    {
        let ghost orig = trees@;
        let rev = reversed(trees);
        let frame = Frame { rev_children: rev, close: None };
        let ghost gf = frame;
        proof {
            lemma_trees_view_index(orig);
            assert(gf.rem() =~= trees_view(orig));
            assert(gf.toks() =~= flat_seq(trees_view(orig)));
        }
        let mut stack: Vec<Frame> = Vec::new();
        stack.push(frame);
        let r = Input { stack, pos: 0 };
        proof {
            assert(r.stack@ =~= seq![gf]);
            assert(r.stack@.last() == gf);
            assert(r.stack@.drop_last() =~= Seq::<Frame>::empty());
            assert(r.toks() == gf.toks() + frames_toks(Seq::<Frame>::empty()));
            assert(r.toks() =~= flat_seq(trees_view(orig)));
            assert(r.stack@.drop_first() =~= Seq::<Frame>::empty());
            assert(r.unread() == wrap(
                None,
                reconstruct_from(Seq::<Frame>::empty(), Seq::<TreeV>::empty()) + gf.rem(),
            ));
            assert(r.unread() =~= trees_view(orig));
        }
        r
    }

    /// Produces the next token of the flattened stream, or `None` when the
    /// stream is exhausted. Exhaustion is a normal terminal state, not an
    /// error: the observable stream and the position are then unchanged.
    /// The position counter must still have room to count one more token;
    /// that is a machine limit, not a property of the stream.
    pub fn produce_next(&mut self) -> (r: Option<Token>)
        requires
            old(self).wf(),
            old(self).pos() < usize::MAX,
        ensures
            final(self).wf(),
            match r {
                Some(tok) => {
                    &&& old(self).toks().len() > 0
                    &&& tok@ == old(self).toks()[0]
                    &&& final(self).toks() == old(self).toks().drop_first()
                    &&& final(self).pos() == old(self).pos() + 1
                },
                None => {
                    &&& old(self).toks().len() == 0
                    &&& final(self).toks().len() == 0
                    &&& final(self).unread() == Seq::<TreeV>::empty()
                    &&& final(self).pos() == old(self).pos()
                },
            },
    {
        let ghost orig_toks = old(self).toks();
        let ghost orig_pos = old(self).pos();
        loop
            invariant
                self.wf(),
                self.toks() == orig_toks,
                self.pos() == orig_pos,
                orig_pos < usize::MAX,
                orig_toks == old(self).toks(),
                orig_pos == old(self).pos(),
            decreases stack_size(self.stack@),
        {
            if self.stack.len() == 0 {
                proof {
                    assert(self.stack@ =~= Seq::<Frame>::empty());
                }
                return None;
            }
            let ghost pre_stack = self.stack@;
            let mut top = self.stack.pop().unwrap();
            let ghost pre_top = top;
            proof {
                assert(pre_stack.last() == pre_top);
                assert(self.stack@ == pre_stack.drop_last());
            }
            if top.rev_children.len() > 0 {
                let t = top.rev_children.pop().unwrap();
                let ghost gt = t;
                match t {
                    TokenTree::Ident(node) => {
                        self.stack.push(top);
                        let tok = Token::Ident(node);
                        proof {
                            assert(self.stack@.drop_last() =~= pre_stack.drop_last());
                            lemma_toks_after_leaf(pre_stack, self.stack@);
                            assert(flat(pre_stack.last().rem()[0]) =~= seq![tok@]);
                            assert(frames_toks(self.stack@) =~= orig_toks.drop_first());
                        }
                        self.pos = self.pos + 1;
                        return Some(tok);
                    }
                    TokenTree::Literal(node) => {
                        self.stack.push(top);
                        let tok = Token::Literal(node);
                        proof {
                            assert(self.stack@.drop_last() =~= pre_stack.drop_last());
                            lemma_toks_after_leaf(pre_stack, self.stack@);
                            assert(flat(pre_stack.last().rem()[0]) =~= seq![tok@]);
                            assert(frames_toks(self.stack@) =~= orig_toks.drop_first());
                        }
                        self.pos = self.pos + 1;
                        return Some(tok);
                    }
                    TokenTree::Punct(node) => {
                        self.stack.push(top);
                        let tok = Token::Punct(node);
                        proof {
                            assert(self.stack@.drop_last() =~= pre_stack.drop_last());
                            lemma_toks_after_leaf(pre_stack, self.stack@);
                            assert(flat(pre_stack.last().rem()[0]) =~= seq![tok@]);
                            assert(frames_toks(self.stack@) =~= orig_toks.drop_first());
                        }
                        self.pos = self.pos + 1;
                        return Some(tok);
                    }
                    TokenTree::Group(d, children, span) => {
                        let ghost ch_v = trees_view(children@);
                        let ghost gch = children@;
                        self.stack.push(top);
                        let rev = reversed(children);
                        let close = match d {
                            Delimiter::Invisible => None,
                            _ => Some((d, span)),
                        };
                        let g = Frame { rev_children: rev, close };
                        let ghost gg = g;
                        self.stack.push(g);
                        proof {
                            lemma_trees_view_index(gch);
                            assert(gg.rem() =~= ch_v);
                            assert(tree_view(gt) == TreeV::Group(d, ch_v, span));
                            assert(self.stack@.drop_last() =~= pre_stack.drop_last().push(
                                pre_stack.last(),
                            ).update(pre_stack.len() as int - 1, self.stack@[pre_stack.len() as int - 1]));
                            assert(self.stack@.drop_last().drop_last() =~= pre_stack.drop_last());
                            assert(self.stack@[self.stack@.len() - 2].close == pre_stack.last().close);
                            assert(self.stack@[self.stack@.len() - 2].rev_children@
                                == pre_stack.last().rev_children@.drop_last());
                            lemma_toks_after_group(pre_stack, self.stack@, d, span, ch_v);
                        }
                        match open_char_ex(d) {
                            Some(c) => {
                                let tok = Token::Delim(c, span);
                                proof {
                                    assert(open_toks(d, span) =~= seq![tok@]);
                                    assert(frames_toks(self.stack@) =~= orig_toks.drop_first());
                                }
                                self.pos = self.pos + 1;
                                return Some(tok);
                            }
                            None => {
                                proof {
                                    assert(open_toks(d, span) =~= Seq::<TokenV>::empty());
                                    assert(frames_toks(self.stack@) =~= orig_toks);
                                }
                            }
                        }
                    }
                }
            } else {
                match top.close {
                    Some((d, span)) => {
                        proof {
                            assert(pre_top.wf());
                        }
                        let c = close_char_ex(d);
                        let tok = Token::Delim(c, span);
                        proof {
                            assert(pre_top.rem() =~= Seq::<TreeV>::empty());
                            assert(pre_top.toks() =~= seq![tok@]);
                            assert(frames_toks(pre_stack) == pre_top.toks() + frames_toks(
                                self.stack@,
                            ));
                            assert(frames_toks(self.stack@) =~= orig_toks.drop_first());
                        }
                        self.pos = self.pos + 1;
                        return Some(tok);
                    }
                    None => {
                        proof {
                            assert(pre_top.rem() =~= Seq::<TreeV>::empty());
                            assert(pre_top.toks() =~= Seq::<TokenV>::empty());
                            assert(frames_toks(pre_stack) == pre_top.toks() + frames_toks(
                                self.stack@,
                            ));
                            assert(frames_toks(self.stack@) =~= orig_toks);
                            assert(stack_size(pre_stack) == frame_size(pre_top) + stack_size(
                                self.stack@,
                            ));
                        }
                    }
                }
            }
        }
    }

    /// True iff the stream is exhausted: no `produce_next` call would
    /// succeed, at any nesting depth.
    #[verifier::loop_isolation(false)]
    pub fn is_empty(&self) -> (r: bool)
        requires
            self.wf(),
        ensures
            r == (self.toks().len() == 0),
    {
        let mut i: usize = 0;
        while i < self.stack.len()
            invariant
                0 <= i <= self.stack@.len(),
                forall|j: int| 0 <= j < i ==> (#[trigger] self.stack@[j]).toks().len() == 0,
            decreases self.stack@.len() - i,
        {
            let f = &self.stack[i];
            if f.close.is_some() {
                proof {
                    assert(f.wf());
                    assert(f.toks().len() > 0);
                    lemma_frames_toks_empty(self.stack@);
                }
                return false;
            }
            let mut k: usize = 0;
            while k < f.rev_children.len()
                invariant
                    0 <= k <= f.rev_children@.len(),
                    forall|j: int|
                        0 <= j < k ==> flat(
                            tree_view(#[trigger] f.rev_children@[j]),
                        ).len() == 0,
                decreases f.rev_children@.len() - k,
            {
                if !tree_is_blank(&f.rev_children[k]) {
                    proof {
                        assert(f.rem()[f.rev_children@.len() - 1 - k] == tree_view(
                            f.rev_children@[k as int],
                        ));
                        lemma_flat_seq_empty(f.rem());
                        assert(f.toks().len() > 0);
                        lemma_frames_toks_empty(self.stack@);
                    }
                    return false;
                }
                k = k + 1;
            }
            proof {
                assert(forall|j: int|
                    0 <= j < f.rem().len() ==> flat(#[trigger] f.rem()[j]).len() == 0) by {
                    assert(forall|j: int|
                        0 <= j < f.rem().len() ==> #[trigger] f.rem()[j] == tree_view(
                            f.rev_children@[f.rev_children@.len() - 1 - j],
                        ));
                }
                lemma_flat_seq_empty(f.rem());
                assert(f.toks().len() == 0);
            }
            i = i + 1;
        }
        proof {
            lemma_frames_toks_empty(self.stack@);
        }
        true
    }

    /// A full deep copy of the adapter's state: an opaque snapshot that
    /// `restore` can later reinstate. Two checkpoints of the same stream can
    /// be restored independently; nothing is shared between them.
    #[verifier::loop_isolation(false)]
    pub fn checkpoint(&self) -> (r: Input)
        ensures
            r.toks() == self.toks(),
            r.pos() == self.pos(),
            r.unread() == self.unread(),
            r.wf() == self.wf(),
    {
        let mut stack: Vec<Frame> = Vec::new();
        let mut i: usize = 0;
        while i < self.stack.len()
            invariant
                0 <= i <= self.stack@.len(),
                stack@.len() == i,
                forall|j: int|
                    0 <= j < i ==> (#[trigger] stack@[j]).rem() == self.stack@[j].rem()
                        && stack@[j].close == self.stack@[j].close,
            decreases self.stack@.len() - i,
        {
            let f = &self.stack[i];
            let mut rc: Vec<TokenTree> = Vec::new();
            let mut k: usize = 0;
            while k < f.rev_children.len()
                invariant
                    0 <= k <= f.rev_children@.len(),
                    rc@.len() == k,
                    forall|j: int|
                        0 <= j < k ==> tree_view(#[trigger] rc@[j]) == tree_view(
                            f.rev_children@[j],
                        ),
                decreases f.rev_children@.len() - k,
            {
                let c = clone_tree(&f.rev_children[k]);
                rc.push(c);
                k = k + 1;
            }
            let copy = Frame { rev_children: rc, close: f.close };
            let ghost gcopy = copy;
            stack.push(copy);
            proof {
                assert(gcopy.rem() =~= f.rem());
            }
            i = i + 1;
        }
        let r = Input { stack, pos: self.pos };
        proof {
            lemma_frames_congruent(r.stack@, self.stack@);
            assert(r.wf() == self.wf()) by {
                if self.wf() {
                    assert(forall|j: int| 0 <= j < r.stack@.len() ==> (#[trigger] r.stack@[j]).wf())
                        by {
                        assert(forall|j: int|
                            0 <= j < r.stack@.len() ==> (#[trigger] r.stack@[j]).close
                                == self.stack@[j].close);
                    }
                }
                if r.wf() {
                    assert(forall|j: int|
                        0 <= j < self.stack@.len() ==> (#[trigger] self.stack@[j]).wf()) by {
                        assert(forall|j: int|
                            0 <= j < self.stack@.len() ==> (#[trigger] self.stack@[j]).close
                                == r.stack@[j].close);
                    }
                }
            }
        }
        r
    }

    /// The inverse of `from_tree`: reconstructs nested token trees from the
    /// current state, handing the still-unread content back unchanged. Every
    /// still-open level is re-emitted, innermost levels re-wrapped in their
    /// group nodes and outer levels wrapped around them.
    #[verifier::loop_isolation(false)]
    pub fn into_tree(self) -> (r: Vec<TokenTree>)
        ensures
            trees_view(r@) == self.unread(),
    {
        let ghost orig_unread = self.unread();
        let Input { stack, pos: _ } = self;
        let mut stack = stack;
        let mut inner: Vec<TokenTree> = Vec::new();
        while stack.len() > 0
            invariant
                reconstruct_from(stack@, trees_view(inner@)) == orig_unread,
            decreases stack@.len(),
        {
            let ghost pre_stack = stack@;
            let ghost pre_inner = trees_view(inner@);
            let mut f = stack.pop().unwrap();
            let ghost pre_f = f;
            let mut content = inner;
            let ghost content0 = content@;
            while f.rev_children.len() > 0
                invariant
                    f.close == pre_f.close,
                    f.rev_children@.len() <= pre_f.rev_children@.len(),
                    content@.len() == content0.len() + pre_f.rev_children@.len()
                        - f.rev_children@.len(),
                    forall|j: int|
                        0 <= j < f.rev_children@.len() ==> #[trigger] f.rev_children@[j]
                            == pre_f.rev_children@[j],
                    forall|j: int| 0 <= j < content0.len() ==> #[trigger] content@[j] == content0[j],
                    forall|j: int|
                        content0.len() <= j < content@.len() ==> #[trigger] content@[j]
                            == pre_f.rev_children@[pre_f.rev_children@.len() - 1 - (j
                            - content0.len())],
                decreases f.rev_children@.len(),
            {
                let t = f.rev_children.pop().unwrap();
                content.push(t);
            }
            proof {
                lemma_trees_view_index(content@);
                lemma_trees_view_index(content0);
                assert forall|j: int| 0 <= j < content@.len() implies tree_view(
                    #[trigger] content@[j],
                ) == (pre_inner + pre_f.rem())[j] by {
                    if j < content0.len() {
                        assert(content@[j] == content0[j]);
                    } else {
                        assert(content@[j] == pre_f.rev_children@[pre_f.rev_children@.len() - 1
                            - (j - content0.len())]);
                        assert(pre_f.rem()[j - content0.len()] == tree_view(
                            pre_f.rev_children@[pre_f.rev_children@.len() - 1 - (j
                            - content0.len())],
                        ));
                    }
                }
                assert(trees_view(content@) =~= pre_inner + pre_f.rem());
                lemma_reconstruct_from_step(pre_stack, pre_inner);
            }
            match f.close {
                Some((d, span)) => {
                    let node = TokenTree::Group(d, content, span);
                    let ghost gnode = node;
                    let mut wrapped: Vec<TokenTree> = Vec::new();
                    wrapped.push(node);
                    inner = wrapped;
                    proof {
                        lemma_trees_view_index(inner@);
                        assert(trees_view(inner@) =~= wrap(
                            pre_f.close,
                            pre_inner + pre_f.rem(),
                        ));
                    }
                }
                None => {
                    inner = content;
                    proof {
                        assert(trees_view(inner@) =~= wrap(pre_f.close, pre_inner + pre_f.rem()));
                    }
                }
            }
        }
        proof {
            assert(reconstruct_from(stack@, trees_view(inner@)) == trees_view(inner@));
        }
        inner
    }

    /// The number of tokens consumed so far; positions of the same stream
    /// are ordered by this counter.
    pub fn position(&self) -> (r: usize)
        ensures
            r == self.pos(),
    {
        self.pos
    }

    /// Total replacement of the current state by a previously taken
    /// checkpoint; no partial or merge semantics.
    pub fn restore(&mut self, checkpoint: Input)
        ensures
            *final(self) == checkpoint,
            final(self).toks() == checkpoint.toks(),
            final(self).pos() == checkpoint.pos(),
            final(self).unread() == checkpoint.unread(),
    {
        *self = checkpoint;
    }
}

/// Wrapping a token tree as a stream and reconstructing it with nothing
/// consumed yields the tree back unchanged: `from_tree` leaves the whole
/// tree unread, and `into_tree` returns exactly the unread content. The
/// hypotheses are those two contracts; the conclusion is the round trip.
pub proof fn lemma_flatten_reconstruct_identity(trees: Seq<TreeV>, s: Input, out: Seq<TreeV>)
    requires
        s.unread() == trees,
        out == s.unread(),
    ensures
        out == trees,
{
}

/// Taking a checkpoint and restoring it immediately, with no intervening
/// `produce_next` call, leaves the stream indistinguishable, in remaining
/// content, position and unread trees, from its pre-checkpoint state. The
/// hypotheses are the contracts of `checkpoint` and `restore`; the
/// conclusion is the indistinguishability.
pub proof fn lemma_checkpoint_restore_identity(before: Input, cp: Input, after: Input)
    requires
        cp.toks() == before.toks(),
        cp.pos() == before.pos(),
        cp.unread() == before.unread(),
        after == cp,
    ensures
        after.toks() == before.toks(),
        after.pos() == before.pos(),
        after.unread() == before.unread(),
{
}

/// Flattening a group with a surface delimiter emits the open delimiter
/// strictly before every token of the group's children and the matching
/// close delimiter, of the same delimiter kind, strictly after all of them;
/// this holds at every nesting depth, since `flat` applies it recursively.
/// An invisible group contributes its children's tokens and nothing else.
pub proof fn lemma_group_delimiters(d: Delimiter, children: Seq<TreeV>, span: proc_macro2::Span)
    ensures
        d != Delimiter::Invisible ==> ({
            let ts = flat(TreeV::Group(d, children, span));
            let inner = flat_seq(children);
            &&& ts.len() == inner.len() + 2
            &&& ts[0] == TokenV::Delim(open_char(d).unwrap(), span)
            &&& ts[ts.len() - 1] == TokenV::Delim(close_char(d).unwrap(), span)
            &&& forall|i: int| 0 <= i < inner.len() ==> ts[i + 1] == inner[i]
        }),
        d == Delimiter::Invisible ==> flat(TreeV::Group(d, children, span)) == flat_seq(children),
{
    let ts = flat(TreeV::Group(d, children, span));
    let inner = flat_seq(children);
    if d != Delimiter::Invisible {
        assert(ts == open_toks(d, span) + inner + close_toks(d, span));
        assert(open_toks(d, span) == seq![TokenV::Delim(open_char(d).unwrap(), span)]);
        assert(close_toks(d, span) == seq![TokenV::Delim(close_char(d).unwrap(), span)]);
    } else {
        assert(ts =~= inner);
    }
}

} // verus!
