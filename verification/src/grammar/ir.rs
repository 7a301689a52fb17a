//! In-memory representation of a parsed grammar.
//!
//! A [`Grammar`] holds [`TokenDef`]s and [`RuleDef`]s in name-keyed
//! [`IndexMap`]s, which iterate in insertion (= source) order; the lexer
//! relies on that order for tie-breaking, and rule kinds are numbered by it.
//!
//! Every syntax-tree type has a mathematical view (`@`) made of sequences, so
//! that contracts can speak of a tree's contents without regard to where its
//! strings and vectors are stored.
use indexmap::IndexMap;
use vstd::prelude::*;

use crate::names;
use crate::span::Span;

verus! {

/// Copies a list of names.
pub fn clone_names(v: &Vec<String>) -> (r: Vec<String>)
    ensures
        names::list_view(r@) == names::list_view(v@),
        r@.len() == v@.len(),
{
    let mut r: Vec<String> = Vec::new();
    let mut i: usize = 0;
    while i < v.len()
        invariant
            i <= v@.len(),
            r@.len() == i,
            forall|k: int| 0 <= k < i ==> (#[trigger] r@[k])@ == v@[k]@,
        decreases v@.len() - i,
    {
        r.push(v[i].clone());
        i += 1;
    }
    assert(names::list_view(r@) =~= names::list_view(v@));
    r
}

/// True iff `name` is in `v`.
pub fn contains_name(v: &Vec<String>, name: &str) -> (r: bool)
    ensures
        r == names::list_view(v@).contains(name@),
{
    let mut i: usize = 0;
    while i < v.len()
        invariant
            i <= v@.len(),
            forall|k: int| 0 <= k < i ==> (#[trigger] v@[k])@ != name@,
        decreases v@.len() - i,
    {
        if names::rank_str(v[i].as_str(), name) == names::Rank::Same {
            assert(names::list_view(v@)[i as int] == name@);
            return true;
        }
        i += 1;
    }
    proof {
        assert forall|k: int| 0 <= k < names::list_view(v@).len() implies names::list_view(v@)[k] != name@ by {
            assert(v@[k]@ != name@);
        }
    }
    false
}

/// A character class: either the listed codepoints, or (when `negated`) the
/// complement of that set.
#[derive(Debug, PartialEq, Eq)]
pub struct CharClass {
    /// When true, the class matches any codepoint *not* listed in `items`.
    pub negated: bool,
    /// Codepoints and ranges that make up the class.
    pub items: Vec<ClassItem>,
}

/// One element of a character class: a single codepoint or an inclusive range.
#[derive(Clone, Copy, Debug, PartialEq, Eq, Structural)]
pub enum ClassItem {
    /// A single codepoint (stored as its numeric value).
    Char(u32),
    /// An inclusive range `[lo, hi]` of codepoints.
    Range(u32, u32),
}

impl ClassItem {
    /// The codepoints that this item lists.
    pub open spec fn lists(self, cp: u32) -> bool {
        match self {
            ClassItem::Char(c) => c == cp,
            ClassItem::Range(lo, hi) => lo <= cp && cp <= hi,
        }
    }
}

/// What a [`CharClass`] holds.
pub struct ClassView {
    pub negated: bool,
    pub items: Seq<ClassItem>,
}

impl ClassView {
    /// Some item of the class lists `cp`.
    pub open spec fn listed(self, cp: u32) -> bool {
        exists|i: int| 0 <= i < self.items.len() && (#[trigger] self.items[i]).lists(cp)
    }

    /// `cp` belongs to the class.
    pub open spec fn contains(self, cp: u32) -> bool {
        self.listed(cp) != self.negated
    }
}

impl View for CharClass {
    type V = ClassView;

    open spec fn view(&self) -> ClassView {
        ClassView { negated: self.negated, items: self.items@ }
    }
}

impl CharClass {
    /// Does codepoint `cp` belong to this class? Honours `negated`.
    pub fn contains(&self, cp: u32) -> (r: bool)
        ensures
            r == self@.contains(cp),
    {
        let mut hit = false;
        let mut i: usize = 0;
        while i < self.items.len()
            invariant
                i <= self.items@.len(),
                hit == exists|k: int| 0 <= k < i && (#[trigger] self.items@[k]).lists(cp),
            decreases self.items@.len() - i,
        {
            let here = match self.items[i] {
                ClassItem::Char(c) => c == cp,
                ClassItem::Range(lo, hi) => lo <= cp && cp <= hi,
            };
            assert(here == self.items@[i as int].lists(cp));
            hit = hit || here;
            i += 1;
        }
        assert(self@.items == self.items@);
        assert(hit == self@.listed(cp));
        if self.negated {
            !hit
        } else {
            hit
        }
    }
}

impl Clone for CharClass {
    fn clone(&self) -> (r: Self)
        ensures
            r@ == self@,
    {
        let mut items: Vec<ClassItem> = Vec::new();
        let mut i: usize = 0;
        while i < self.items.len()
            invariant
                i <= self.items@.len(),
                items@ == self.items@.take(i as int),
            decreases self.items@.len() - i,
        {
            items.push(self.items[i]);
            i += 1;
        }
        assert(items@ =~= self.items@);
        CharClass { negated: self.negated, items }
    }
}

impl Default for CharClass {
    fn default() -> (r: Self)
        ensures
            r@ == (ClassView { negated: false, items: Seq::empty() }),
    {
        CharClass { negated: false, items: Vec::new() }
    }
}

/// A regular expression over characters that defines how a token is lexed.
///
/// `Ref` targets another token by name, typically a fragment, and is resolved
/// into its body before the lexer is built.
#[derive(Debug)]
pub enum TokenPattern {
    /// Matches the empty string (ε) and consumes nothing.
    Empty,
    /// Matches the exact string byte-for-byte.
    Literal(String),
    /// Matches any codepoint in a character class.
    Class(CharClass),
    /// Reference to another token pattern by name.
    Ref(String),
    /// Negated lookahead, built from `!("L1" | "L2" | 'c' | ...)` when at least
    /// one alternative is a multi-codepoint string. Single-codepoint atoms are
    /// folded into `chars`. Only meaningful as the body of `*` or `+`.
    NegLook { chars: CharClass, strings: Vec<String> },
    /// Concatenation: match the children in order.
    Concat(Vec<TokenPattern>),
    /// Alternation: match any one child.
    Alt(Vec<TokenPattern>),
    /// `?`: match the child zero or one times.
    Opt(Box<TokenPattern>),
    /// `*`: match the child zero or more times.
    Star(Box<TokenPattern>),
    /// `+`: match the child one or more times.
    Plus(Box<TokenPattern>),
}

/// What a [`TokenPattern`] holds.
pub enum PatternView {
    Empty,
    Literal(Seq<char>),
    Class(ClassView),
    Ref(Seq<char>),
    NegLook(ClassView, Seq<Seq<char>>),
    Concat(Seq<PatternView>),
    Alt(Seq<PatternView>),
    Opt(Box<PatternView>),
    Star(Box<PatternView>),
    Plus(Box<PatternView>),
}

/// The views of a list of patterns.
pub open spec fn patterns_view(xs: Seq<TokenPattern>) -> Seq<PatternView>
    decreases xs,
{
    Seq::new(
        xs.len(),
        |i: int|
            if 0 <= i < xs.len() {
                xs[i].view()
            } else {
                PatternView::Empty
            },
    )
}

impl TokenPattern {
    /// What this pattern holds.
    pub open spec fn view(self) -> PatternView
        decreases self,
    {
        match self {
            TokenPattern::Empty => PatternView::Empty,
            TokenPattern::Literal(s) => PatternView::Literal(s@),
            TokenPattern::Class(c) => PatternView::Class(c@),
            TokenPattern::Ref(n) => PatternView::Ref(n@),
            TokenPattern::NegLook { chars, strings } => PatternView::NegLook(
                chars@,
                names::list_view(strings@),
            ),
            TokenPattern::Concat(xs) => PatternView::Concat(patterns_view(xs@)),
            TokenPattern::Alt(xs) => PatternView::Alt(patterns_view(xs@)),
            TokenPattern::Opt(x) => PatternView::Opt(Box::new((*x).view())),
            TokenPattern::Star(x) => PatternView::Star(Box::new((*x).view())),
            TokenPattern::Plus(x) => PatternView::Plus(Box::new((*x).view())),
        }
    }

    /// True if this pattern is a plain string literal.
    pub fn is_literal(&self) -> (r: bool)
        ensures
            r == (self@ is Literal),
    {
        matches!(self, TokenPattern::Literal(_))
    }

    /// Build a sequence, short-circuiting the trivial cases so that a 0- or
    /// 1-element `Concat` is never produced.
    pub fn seq(xs: Vec<TokenPattern>) -> (r: TokenPattern)
        ensures
            r@ == seq_pattern(patterns_view(xs@)),
    {
        let mut xs = xs;
        if xs.len() == 0 {
            return TokenPattern::Empty;
        }
        if xs.len() == 1 {
            return xs.remove(0);
        }
        TokenPattern::Concat(xs)
    }

    /// Build an alternation, short-circuiting the trivial cases.
    pub fn alt(xs: Vec<TokenPattern>) -> (r: TokenPattern)
        ensures
            r@ == alt_pattern(patterns_view(xs@)),
    {
        let mut xs = xs;
        if xs.len() == 0 {
            return TokenPattern::Empty;
        }
        if xs.len() == 1 {
            return xs.remove(0);
        }
        TokenPattern::Alt(xs)
    }
}

/// The sequence of `xs` with the trivial cases collapsed.
pub open spec fn seq_pattern(xs: Seq<PatternView>) -> PatternView {
    if xs.len() == 0 {
        PatternView::Empty
    } else if xs.len() == 1 {
        xs[0]
    } else {
        PatternView::Concat(xs)
    }
}

/// The alternation of `xs` with the trivial cases collapsed.
pub open spec fn alt_pattern(xs: Seq<PatternView>) -> PatternView {
    if xs.len() == 0 {
        PatternView::Empty
    } else if xs.len() == 1 {
        xs[0]
    } else {
        PatternView::Alt(xs)
    }
}

fn clone_patterns(xs: &Vec<TokenPattern>) -> (r: Vec<TokenPattern>)
    ensures
        patterns_view(r@) == patterns_view(xs@),
    decreases xs,
{
    let mut r: Vec<TokenPattern> = Vec::new();
    let mut i: usize = 0;
    while i < xs.len()
        invariant
            i <= xs@.len(),
            r@.len() == i,
            forall|k: int| 0 <= k < i ==> (#[trigger] r@[k])@ == xs@[k]@,
        decreases xs@.len() - i,
    {
        r.push(clone_pattern(&xs[i]));
        i += 1;
    }
    assert(patterns_view(r@) =~= patterns_view(xs@));
    r
}

fn clone_pattern(x: &TokenPattern) -> (r: TokenPattern)
    ensures
        r@ == x@,
    decreases x,
{
    match x {
        TokenPattern::Empty => TokenPattern::Empty,
        TokenPattern::Literal(s) => TokenPattern::Literal(s.clone()),
        TokenPattern::Class(c) => TokenPattern::Class(c.clone()),
        TokenPattern::Ref(n) => TokenPattern::Ref(n.clone()),
        TokenPattern::NegLook { chars, strings } => TokenPattern::NegLook {
            chars: chars.clone(),
            strings: clone_names(strings),
        },
        TokenPattern::Concat(xs) => TokenPattern::Concat(clone_patterns(xs)),
        TokenPattern::Alt(xs) => TokenPattern::Alt(clone_patterns(xs)),
        TokenPattern::Opt(b) => TokenPattern::Opt(Box::new(clone_pattern(b))),
        TokenPattern::Star(b) => TokenPattern::Star(Box::new(clone_pattern(b))),
        TokenPattern::Plus(b) => TokenPattern::Plus(Box::new(clone_pattern(b))),
    }
}

impl Clone for TokenPattern {
    fn clone(&self) -> (r: Self)
        ensures
            r@ == self@,
    {
        clone_pattern(self)
    }
}

/// An LL expression: the body of a rule.
///
/// Left recursion is rejected by the analysis; unbounded repetition uses
/// `Star`/`Plus`/`Opt` instead.
#[derive(Debug)]
pub enum Expr {
    /// Matches nothing (ε).
    Empty,
    /// Matches a single token of the named kind.
    Token(String),
    /// Recursively parses the named rule.
    Rule(String),
    /// Concatenation: every child in order.
    Concat(Vec<Expr>),
    /// Alternation: exactly one child. Must be LL(k)-disambiguable.
    Alt(Vec<Expr>),
    /// `?`: the child appears zero or one times.
    Opt(Box<Expr>),
    /// `*`: the child appears zero or more times.
    Star(Box<Expr>),
    /// `+`: the child appears one or more times.
    Plus(Box<Expr>),
    /// `name:child`: the tokens that the child matches carry the label.
    Label(String, Box<Expr>),
}

/// What an [`Expr`] holds.
pub enum ExprView {
    Empty,
    Token(Seq<char>),
    Rule(Seq<char>),
    Concat(Seq<ExprView>),
    Alt(Seq<ExprView>),
    Opt(Box<ExprView>),
    Star(Box<ExprView>),
    Plus(Box<ExprView>),
    Label(Seq<char>, Box<ExprView>),
}

/// The views of a list of expressions.
pub open spec fn exprs_view(xs: Seq<Expr>) -> Seq<ExprView>
    decreases xs,
{
    Seq::new(
        xs.len(),
        |i: int|
            if 0 <= i < xs.len() {
                xs[i].view()
            } else {
                ExprView::Empty
            },
    )
}

/// The sequence of `xs` with the trivial cases collapsed.
pub open spec fn seq_expr(xs: Seq<ExprView>) -> ExprView {
    if xs.len() == 0 {
        ExprView::Empty
    } else if xs.len() == 1 {
        xs[0]
    } else {
        ExprView::Concat(xs)
    }
}

/// The alternation of `xs` with the trivial cases collapsed.
pub open spec fn alt_expr(xs: Seq<ExprView>) -> ExprView {
    if xs.len() == 0 {
        ExprView::Empty
    } else if xs.len() == 1 {
        xs[0]
    } else {
        ExprView::Alt(xs)
    }
}

impl Expr {
    /// What this expression holds.
    pub open spec fn view(self) -> ExprView
        decreases self,
    {
        match self {
            Expr::Empty => ExprView::Empty,
            Expr::Token(n) => ExprView::Token(n@),
            Expr::Rule(n) => ExprView::Rule(n@),
            Expr::Concat(xs) => ExprView::Concat(exprs_view(xs@)),
            Expr::Alt(xs) => ExprView::Alt(exprs_view(xs@)),
            Expr::Opt(x) => ExprView::Opt(Box::new((*x).view())),
            Expr::Star(x) => ExprView::Star(Box::new((*x).view())),
            Expr::Plus(x) => ExprView::Plus(Box::new((*x).view())),
            Expr::Label(n, x) => ExprView::Label(n@, Box::new((*x).view())),
        }
    }

    /// Build a sequence, collapsing trivial 0/1-element cases.
    pub fn seq(items: Vec<Expr>) -> (r: Expr)
        ensures
            r@ == seq_expr(exprs_view(items@)),
    {
        let mut items = items;
        if items.len() == 0 {
            return Expr::Empty;
        }
        if items.len() == 1 {
            return items.remove(0);
        }
        Expr::Concat(items)
    }

    /// Build an alternation, collapsing trivial 0/1-element cases.
    pub fn alt(items: Vec<Expr>) -> (r: Expr)
        ensures
            r@ == alt_expr(exprs_view(items@)),
    {
        let mut items = items;
        if items.len() == 0 {
            return Expr::Empty;
        }
        if items.len() == 1 {
            return items.remove(0);
        }
        Expr::Alt(items)
    }
}

fn clone_exprs(xs: &Vec<Expr>) -> (r: Vec<Expr>)
    ensures
        exprs_view(r@) == exprs_view(xs@),
    decreases xs,
{
    let mut r: Vec<Expr> = Vec::new();
    let mut i: usize = 0;
    while i < xs.len()
        invariant
            i <= xs@.len(),
            r@.len() == i,
            forall|k: int| 0 <= k < i ==> (#[trigger] r@[k])@ == xs@[k]@,
        decreases xs@.len() - i,
    {
        r.push(clone_expr(&xs[i]));
        i += 1;
    }
    assert(exprs_view(r@) =~= exprs_view(xs@));
    r
}

fn clone_expr(x: &Expr) -> (r: Expr)
    ensures
        r@ == x@,
    decreases x,
{
    match x {
        Expr::Empty => Expr::Empty,
        Expr::Token(n) => Expr::Token(n.clone()),
        Expr::Rule(n) => Expr::Rule(n.clone()),
        Expr::Concat(xs) => Expr::Concat(clone_exprs(xs)),
        Expr::Alt(xs) => Expr::Alt(clone_exprs(xs)),
        Expr::Opt(b) => Expr::Opt(Box::new(clone_expr(b))),
        Expr::Star(b) => Expr::Star(Box::new(clone_expr(b))),
        Expr::Plus(b) => Expr::Plus(Box::new(clone_expr(b))),
        Expr::Label(n, b) => Expr::Label(n.clone(), Box::new(clone_expr(b))),
    }
}

impl Clone for Expr {
    fn clone(&self) -> (r: Self)
        ensures
            r@ == self@,
    {
        clone_expr(self)
    }
}

/// Lexer mode-stack action attached to a token via the `-> push(...)` or
/// `-> pop` action. Fires on a successful match of the token.
#[derive(Debug, PartialEq, Eq)]
pub enum ModeAction {
    /// Push the named mode onto the lexer mode stack.
    Push(String),
    /// Pop the topmost mode off the lexer mode stack.
    Pop,
}

/// What a [`ModeAction`] holds.
pub enum ModeActionView {
    Push(Seq<char>),
    Pop,
}

impl View for ModeAction {
    type V = ModeActionView;

    open spec fn view(&self) -> ModeActionView {
        match self {
            ModeAction::Push(n) => ModeActionView::Push(n@),
            ModeAction::Pop => ModeActionView::Pop,
        }
    }
}

impl Clone for ModeAction {
    fn clone(&self) -> (r: Self)
        ensures
            r == *self,
    {
        match self {
            ModeAction::Push(n) => ModeAction::Push(n.clone()),
            ModeAction::Pop => ModeAction::Pop,
        }
    }
}

/// The views of a list of mode actions.
pub open spec fn actions_view(v: Seq<ModeAction>) -> Seq<ModeActionView> {
    Seq::new(v.len(), |i: int| v[i]@)
}

/// A single token declaration.
#[derive(Debug)]
pub struct TokenDef {
    /// Grammar-declared token name (e.g. `IDENT`).
    pub name: String,
    /// Regular-expression-style body that matches this token.
    pub pattern: TokenPattern,
    /// Has a `-> skip` action: matched but dropped from the structural event
    /// stream (whitespace, comments, etc.).
    pub skip: bool,
    /// Named with a leading `_`: usable inside other token patterns but not
    /// itself a token kind at run time.
    pub is_fragment: bool,
    /// Lexer modes this token belongs to: `default` if it has no annotation.
    pub modes: Vec<String>,
    /// Mode-stack actions that fire in source order when this token matches.
    pub mode_actions: Vec<ModeAction>,
    /// Source span of the whole declaration, for diagnostics.
    pub span: Span,
}

/// What a [`TokenDef`] holds.
pub struct TokenView {
    pub name: Seq<char>,
    pub pattern: PatternView,
    pub skip: bool,
    pub is_fragment: bool,
    pub modes: Seq<Seq<char>>,
    pub mode_actions: Seq<ModeActionView>,
    pub span: Span,
}

impl View for TokenDef {
    type V = TokenView;

    open spec fn view(&self) -> TokenView {
        TokenView {
            name: self.name@,
            pattern: self.pattern@,
            skip: self.skip,
            is_fragment: self.is_fragment,
            modes: names::list_view(self.modes@),
            mode_actions: actions_view(self.mode_actions@),
            span: self.span,
        }
    }
}

/// A single rule declaration.
///
/// Fragment rules (`_`-prefix) are inlined by callers and produce no
/// `Enter`/`Exit` events; other rules are entry points of the parser.
#[derive(Debug)]
pub struct RuleDef {
    /// Grammar-declared rule name (e.g. `expr`).
    pub name: String,
    /// The expression that makes up this rule.
    pub body: Expr,
    /// Named with a leading `_`.
    pub is_fragment: bool,
    /// Source span of the whole declaration, for diagnostics.
    pub span: Span,
}

/// What a [`RuleDef`] holds.
pub struct RuleView {
    pub name: Seq<char>,
    pub body: ExprView,
    pub is_fragment: bool,
    pub span: Span,
}

impl View for RuleDef {
    type V = RuleView;

    open spec fn view(&self) -> RuleView {
        RuleView {
            name: self.name@,
            body: self.body@,
            is_fragment: self.is_fragment,
            span: self.span,
        }
    }
}

fn clone_actions(v: &Vec<ModeAction>) -> (r: Vec<ModeAction>)
    ensures
        r@ == v@,
{
    let mut r: Vec<ModeAction> = Vec::new();
    let mut i: usize = 0;
    while i < v.len()
        invariant
            i <= v@.len(),
            r@ == v@.take(i as int),
        decreases v@.len() - i,
    {
        r.push(v[i].clone());
        i += 1;
    }
    assert(r@ =~= v@);
    r
}

impl Clone for TokenDef {
    fn clone(&self) -> (r: Self)
        ensures
            r@ == self@,
    {
        TokenDef {
            name: self.name.clone(),
            pattern: self.pattern.clone(),
            skip: self.skip,
            is_fragment: self.is_fragment,
            modes: clone_names(&self.modes),
            mode_actions: clone_actions(&self.mode_actions),
            span: self.span,
        }
    }
}

impl Clone for RuleDef {
    fn clone(&self) -> (r: Self)
        ensures
            r@ == self@,
    {
        RuleDef {
            name: self.name.clone(),
            body: self.body.clone(),
            is_fragment: self.is_fragment,
            span: self.span,
        }
    }
}

/// The insertion-ordered hash map of the `indexmap` crate.
#[verifier::external_type_specification]
#[verifier::external_body]
#[verifier::reject_recursive_types(K)]
#[verifier::reject_recursive_types(V)]
#[verifier::reject_recursive_types(S)]
pub struct ExIndexMap<K, V, S>(indexmap::IndexMap<K, V, S>);

/// The keys and values of a token table, in the order in which
/// `indexmap::IndexMap` iterates over them.
pub uninterp spec fn token_entries(m: IndexMap<String, TokenDef>) -> Seq<(Seq<char>, TokenDef)>;

/// The keys and values of a rule table, in the order in which
/// `indexmap::IndexMap` iterates over them.
pub uninterp spec fn rule_entries(m: IndexMap<String, RuleDef>) -> Seq<(Seq<char>, RuleDef)>;

/// The first position of the key; the number of entries if there is none.
pub open spec fn position<A>(entries: Seq<(Seq<char>, A)>, key: Seq<char>) -> int
    decreases entries.len(),
{
    if entries.len() == 0 {
        0
    } else if entries[0].0 == key {
        0
    } else {
        1 + position(entries.skip(1), key)
    }
}

/// The value under the key.
pub open spec fn lookup<A>(entries: Seq<(Seq<char>, A)>, key: Seq<char>) -> Option<A> {
    if position(entries, key) < entries.len() {
        Some(entries[position(entries, key)].1)
    } else {
        None
    }
}

/// The entries after `value` was put under `key`: in the place of an earlier
/// value, or else at the end.
pub open spec fn put<A>(entries: Seq<(Seq<char>, A)>, key: Seq<char>, value: A) -> Seq<
    (Seq<char>, A),
> {
    if position(entries, key) < entries.len() {
        entries.update(position(entries, key), (key, value))
    } else {
        entries.push((key, value))
    }
}

pub proof fn lemma_position<A>(entries: Seq<(Seq<char>, A)>, key: Seq<char>)
    ensures
        0 <= position(entries, key) <= entries.len(),
        position(entries, key) < entries.len() ==> entries[position(entries, key)].0 == key,
        forall|i: int|
            0 <= i < position(entries, key) && i < entries.len() ==> (#[trigger] entries[i]).0
                != key,
    decreases entries.len(),
{
    if entries.len() > 0 && entries[0].0 != key {
        lemma_position(entries.skip(1), key);
        assert forall|i: int| 0 <= i < position(entries, key) && i < entries.len() implies (
        #[trigger] entries[i]).0 != key by {
            if i > 0 {
                assert(entries[i] == entries.skip(1)[i - 1]);
            }
        }
    }
}

/// `indexmap::IndexMap::new`: an empty table.
#[verifier::external_body]
fn token_table_new() -> (m: IndexMap<String, TokenDef>)
    ensures
        token_entries(m) == Seq::<(Seq<char>, TokenDef)>::empty(),
{
    IndexMap::new()
}

/// `indexmap::IndexMap::insert`: an equivalent key keeps its place and its
/// value is replaced and returned; otherwise the pair becomes the last one.
#[verifier::external_body]
fn token_table_insert(m: &mut IndexMap<String, TokenDef>, key: String, value: TokenDef) -> (r: Option<
    TokenDef,
>)
    ensures
        token_entries(*final(m)) == put(token_entries(*old(m)), key@, value),
        r == lookup(token_entries(*old(m)), key@),
{
    m.insert(key, value)
}

/// `indexmap::IndexMap::get`: the value stored under the key, if there is one.
#[verifier::external_body]
pub(crate) fn token_table_get<'a>(m: &'a IndexMap<String, TokenDef>, key: &str) -> (r: Option<
    &'a TokenDef,
>)
    ensures
        r is Some == lookup(token_entries(*m), key@) is Some,
        r matches Some(v) ==> *v == lookup(token_entries(*m), key@)->0,
{
    m.get(key)
}

/// `indexmap::IndexMap::values`: the values in the map's order.
#[verifier::external_body]
pub(crate) fn token_table_values(m: &IndexMap<String, TokenDef>) -> (r: Vec<&TokenDef>)
    ensures
        r@.len() == token_entries(*m).len(),
        forall|i: int| 0 <= i < r@.len() ==> *(#[trigger] r@[i]) == token_entries(*m)[i].1,
{
    m.values().collect()
}

/// `indexmap::IndexMap::new`: an empty table.
#[verifier::external_body]
fn rule_table_new() -> (m: IndexMap<String, RuleDef>)
    ensures
        rule_entries(m) == Seq::<(Seq<char>, RuleDef)>::empty(),
{
    IndexMap::new()
}

/// `indexmap::IndexMap::insert`: an equivalent key keeps its place and its
/// value is replaced and returned; otherwise the pair becomes the last one.
#[verifier::external_body]
fn rule_table_insert(m: &mut IndexMap<String, RuleDef>, key: String, value: RuleDef) -> (r: Option<
    RuleDef,
>)
    ensures
        rule_entries(*final(m)) == put(rule_entries(*old(m)), key@, value),
        r == lookup(rule_entries(*old(m)), key@),
{
    m.insert(key, value)
}

/// `indexmap::IndexMap::get`: the value stored under the key, if there is one.
#[verifier::external_body]
pub(crate) fn rule_table_get<'a>(m: &'a IndexMap<String, RuleDef>, key: &str) -> (r: Option<
    &'a RuleDef,
>)
    ensures
        r is Some == lookup(rule_entries(*m), key@) is Some,
        r matches Some(v) ==> *v == lookup(rule_entries(*m), key@)->0,
{
    m.get(key)
}

/// `indexmap::IndexMap::values`: the values in the map's order.
#[verifier::external_body]
pub(crate) fn rule_table_values(m: &IndexMap<String, RuleDef>) -> (r: Vec<&RuleDef>)
    ensures
        r@.len() == rule_entries(*m).len(),
        forall|i: int| 0 <= i < r@.len() ==> *(#[trigger] r@[i]) == rule_entries(*m)[i].1,
{
    m.values().collect()
}

/// A parsed grammar: its name (used to pick file names in code generation)
/// plus every declared token and rule, keyed by name in declaration order.
#[derive(Debug)]
pub struct Grammar {
    /// Identifier used when the code generator needs to name the output.
    pub name: String,
    /// Every token declaration, including fragments, keyed by name.
    pub tokens: IndexMap<String, TokenDef>,
    /// Every rule declaration, including fragments, keyed by name.
    pub rules: IndexMap<String, RuleDef>,
}

impl Grammar {
    /// The token definitions by name, in declaration order.
    pub open spec fn token_map(self) -> Seq<(Seq<char>, TokenView)> {
        Seq::new(
            token_entries(self.tokens).len(),
            |i: int| (token_entries(self.tokens)[i].0, token_entries(self.tokens)[i].1@),
        )
    }

    /// The rule definitions by name, in declaration order.
    pub open spec fn rule_map(self) -> Seq<(Seq<char>, RuleView)> {
        Seq::new(
            rule_entries(self.rules).len(),
            |i: int| (rule_entries(self.rules)[i].0, rule_entries(self.rules)[i].1@),
        )
    }

    /// The token definitions in declaration order.
    pub open spec fn token_list(self) -> Seq<TokenView> {
        Seq::new(self.token_map().len(), |i: int| self.token_map()[i].1)
    }

    /// The rule definitions in declaration order.
    pub open spec fn rule_list(self) -> Seq<RuleView> {
        Seq::new(self.rule_map().len(), |i: int| self.rule_map()[i].1)
    }

    /// Insert a token by name. Returns the previous definition under the same
    /// name, if any; the new one then takes its place in the order.
    pub fn add_token(&mut self, t: TokenDef) -> (r: Option<TokenDef>)
        ensures
            final(self).name == old(self).name,
            final(self).rules == old(self).rules,
            token_entries(final(self).tokens) == put(
                token_entries(old(self).tokens),
                t.name@,
                t,
            ),
            final(self).token_map() == put(old(self).token_map(), t.name@, t@),
            r == lookup(token_entries(old(self).tokens), t.name@),
    {
        let key = t.name.clone();
        proof {
            lemma_lookup_view(
                token_entries(self.tokens),
                self.token_map(),
                |d: TokenDef| d@,
                t.name@,
            );
            lemma_position(token_entries(self.tokens), t.name@);
        }
        let r = token_table_insert(&mut self.tokens, key, t);
        assert(self.token_map() =~= put(old(self).token_map(), t.name@, t@));
        r
    }

    /// Insert a rule by name. Returns the previous definition under the same
    /// name, if any; the new one then takes its place in the order.
    pub fn add_rule(&mut self, r: RuleDef) -> (prev: Option<RuleDef>)
        ensures
            final(self).name == old(self).name,
            final(self).tokens == old(self).tokens,
            rule_entries(final(self).rules) == put(rule_entries(old(self).rules), r.name@, r),
            final(self).rule_map() == put(old(self).rule_map(), r.name@, r@),
            prev == lookup(rule_entries(old(self).rules), r.name@),
    {
        let key = r.name.clone();
        proof {
            lemma_lookup_view(
                rule_entries(self.rules),
                self.rule_map(),
                |d: RuleDef| d@,
                r.name@,
            );
            lemma_position(rule_entries(self.rules), r.name@);
        }
        let prev = rule_table_insert(&mut self.rules, key, r);
        assert(self.rule_map() =~= put(old(self).rule_map(), r.name@, r@));
        prev
    }

    /// The token definitions in declaration order.
    pub fn token_values(&self) -> (r: Vec<&TokenDef>)
        ensures
            r@.len() == self.token_list().len(),
            forall|i: int| 0 <= i < r@.len() ==> (#[trigger] r@[i])@ == self.token_list()[i],
    {
        token_table_values(&self.tokens)
    }

    /// The rule definitions in declaration order.
    pub fn rule_values(&self) -> (r: Vec<&RuleDef>)
        ensures
            r@.len() == self.rule_list().len(),
            forall|i: int| 0 <= i < r@.len() ==> (#[trigger] r@[i])@ == self.rule_list()[i],
    {
        rule_table_values(&self.rules)
    }

    /// The definition of the token `name`.
    pub fn token(&self, name: &str) -> (r: Option<&TokenDef>)
        ensures
            r is Some <==> lookup(self.token_map(), name@) is Some,
            r matches Some(t) ==> t@ == lookup(self.token_map(), name@)->0,
    {
        proof {
            lemma_lookup_view(
                token_entries(self.tokens),
                self.token_map(),
                |t: TokenDef| t@,
                name@,
            );
        }
        token_table_get(&self.tokens, name)
    }

    /// The definition of the rule `name`.
    pub fn rule(&self, name: &str) -> (r: Option<&RuleDef>)
        ensures
            r is Some <==> lookup(self.rule_map(), name@) is Some,
            r matches Some(t) ==> t@ == lookup(self.rule_map(), name@)->0,
    {
        proof {
            lemma_lookup_view(rule_entries(self.rules), self.rule_map(), |t: RuleDef| t@, name@);
        }
        rule_table_get(&self.rules, name)
    }
}

/// Looking up a value and then taking its view is looking up among the views.
proof fn lemma_lookup_view<A, B>(
    e: Seq<(Seq<char>, A)>,
    v: Seq<(Seq<char>, B)>,
    f: spec_fn(A) -> B,
    key: Seq<char>,
)
    requires
        e.len() == v.len(),
        forall|i: int| 0 <= i < e.len() ==> #[trigger] v[i] == (e[i].0, f(e[i].1)),
    ensures
        position(e, key) == position(v, key),
        lookup(e, key) is Some <==> lookup(v, key) is Some,
        lookup(e, key) is Some ==> lookup(v, key)->0 == f(lookup(e, key)->0),
    decreases e.len(),
{
    if e.len() > 0 {
        assert(v[0] == (e[0].0, f(e[0].1)));
        assert forall|i: int| 0 <= i < e.skip(1).len() implies #[trigger] v.skip(1)[i] == (
            e.skip(1)[i].0,
            f(e.skip(1)[i].1),
        ) by {
            assert(v[i + 1] == (e[i + 1].0, f(e[i + 1].1)));
        }
        lemma_lookup_view(e.skip(1), v.skip(1), f, key);
        lemma_position(e, key);
    }
}

impl Default for Grammar {
    fn default() -> (r: Self)
        ensures
            r.name@ == Seq::<char>::empty(),
            r.token_map() == Seq::<(Seq<char>, TokenView)>::empty(),
            r.rule_map() == Seq::<(Seq<char>, RuleView)>::empty(),
    {
        let r = Grammar {
            name: String::new(),
            tokens: token_table_new(),
            rules: rule_table_new(),
        };
        assert(r.token_map() =~= Seq::<(Seq<char>, TokenView)>::empty());
        assert(r.rule_map() =~= Seq::<(Seq<char>, RuleView)>::empty());
        r
    }
}

} // verus!
