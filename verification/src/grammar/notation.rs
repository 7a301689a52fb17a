//! The state table of the grammar notation.
//!
//! The notation is itself a grammar, and files are read with what that grammar
//! is lowered to (see [`file_table`]). The table here stands in for it where it
//! cannot be lowered. It is kept as a list of numbers; that they are those of the
//! lowered grammar is tested, not proved.
//!
//! The numbers are: the lookahead; for each token whether it is skipped; the
//! FIRST sets; the SYNC sets; the states; the rows of the lexer automaton; and
//! the state that a file begins in. A list is its length and then its items.
//!
//! [`file_table`]: crate::grammar::file_table
use vstd::prelude::*;

use crate::grammar::ir::TokenPattern;
use crate::lowering::lexer_dfa::{self, DfaState};
use crate::lowering::recovery::{self, Insertion, InsertionView, PostFirst};
use crate::lowering::subset::{self, Row};
use crate::lowering::table::{
    self, Body, BodyView, DispatchLeaf, DispatchTree, FirstSet, Instr, InstrView, LeafView,
    ModeInfo, State, StateMap, StateTable, StateView, SyncSet, Tail, TailView, TokenInfo, TreeView,
};
use crate::name_map::NameMap;
use crate::names;
use crate::runtime::lexer;
use crate::text;

verus! {

/// The names of the tokens in order.
pub const NAMES: &'static str = "\
    IDENT LABEL STRING CHAR AT LPAREN RPAREN COMMA PIPE QUESTION STAR PLUS DOT DOTDOT \
    BANG EQ SEMI ARROW WS COMMENT";

/// The table.
pub const NUMBERS: &'static str = "\
    1  20 0 0 0 0 0 0 0 0 0 0 0 0 0 0 0 0 0 0 1 1  21  2 1 1 1 5  1 1 5  1 1 8  1 1 18  1 1 6 \
    1 1 9  7 1 1 1 2 1 3 1 4 1 6 1 13 1 15  1 1 1  1 1 3  2 1 4 1 13  1 1 15  1 1 13  1 1 4 \
    1 1 14  3 1 3 1 4 1 13  1 1 2  3 1 10 1 11 1 12  5 1 1 1 3 1 4 1 13 1 15  1 1 10  1 1 11 \
    1 1 12  9  1 0  3 0 1 5  2 0 1  2 0 17  3 0 8 17  4 0 7 17 18  5 0 7 9 17 18 \
    15 0 1 2 3 4 6 7 9 10 11 12 13 15 17 18  12 0 1 2 3 4 6 7 9 13 15 17 18  64 \
    1 1 0 0 2 0 2 3 0 1 4  2 0 2 0 2 3 0 1 4  3 1 1 0 0  4 1 0 1 3 1 6 0 1 8 \
    5 1 0 1 3 1 6 0 1 8  6 2 3 7 0 3 1 19  7 1 1 1 0  8 1 0 2 1 10  9 1 0 2 1 10 \
    10 1 2 5 2 0 1 11  11 1 2 1 2 0 1 12  12 1 2 6 2 0 1 13  13 1 2 1 2 0 1 14 \
    14 0 2 2 14 15 1 2 8 2 0 1 17  15 1 2 7 2 0 1 16  16 1 1 2 0  17 1 2 1 2 0 0  18 1 0 3 1 19 \
    19 1 2 1 1 0 1 20  20 2 2 16 1 0 3 21 1 37  21 0 3 3 22 1 0 4 1 25  22 1 2 17 1 0 1 23 \
    23 1 1 3 0  24 1 0 4 1 25  25 2 2 18 3 0 3 26 1 28  26 0 2 2 26 27 1 2 8 3 0 1 28 \
    27 1 1 4 0  28 1 0 5 1 29  29 1 2 1 4 0 1 30  30 0 3 4 31 1 0 6 1 33  31 1 1 5 0 \
    32 1 0 6 1 33  33 1 2 6 4 0 1 34  34 1 2 1 4 0 1 35  35 1 2 7 4 0 1 36  36 1 1 6 0 \
    37 2 0 7 3 38 1 40  38 0 2 5 38 39 1 2 9 5 0 1 40  39 1 1 7 0  40 1 0 8 2 6 41 42 0 1 43 \
    41 0 2 6 41 42 0 3 15 62 1 2 2 8 0 0  42 1 1 8 0  43 0 3 15 62 1 2 2 8 0 0  44 1 0 9 1 45 \
    45 0 4 7 46 1 5 1 3 4 13 15 10 0 2 6 7 9 10 11 12 17 18 0 46 1 0 5 1 0 2 1 2 1 7 0 0 3 0 2 1 \
    2 3 7 0 0 4 0 2 1 0 11 1 52 13 0 2 1 0 11 1 52 15 0 2 1 0 12 1 57 0  46 1 1 9 0 \
    47 1 0 10 1 48  48 2 2 6 7 0 3 49 1 37  49 1 2 7 7 0 1 50  50 1 1 10 0  51 1 0 11 1 52 \
    52 0 4 7 53 2 2 4 13 1 14 53 54 2 4 13 13 0 1 2 3 6 7 9 10 11 12 15 17 18 53 54 1 0 2 4 0 2 \
    1 2 4 7 0 1 54 13 0 2 1 2 13 7 0 0 0  53 1 1 11 0  54 0 3 13 0 1 2 14 7 0 1 55 \
    55 1 2 4 7 0 0  56 1 0 12 1 57  57 1 2 15 7 0 1 58 \
    58 0 4 7 59 1 1 6 3 3 4 13 59 64 1 0 4 3 0 2 0 4 7 0 1 3 3 4 13 12 0 1 2 6 7 9 10 11 12 15 \
    17 18 0 0 1 0 3 3 0 2 1 2 3 7 0 0 4 0 2 1 0 11 1 52 13 0 2 1 0 11 1 52 0 4 0 2 0 4 7 0 1 3 3 \
    4 13 12 0 1 2 6 7 9 10 11 12 15 17 18 0 0 1 0 3 3 0 2 1 2 3 7 0 0 4 0 2 1 0 11 1 52 13 0 2 1 \
    0 11 1 52 0 6 0 2 2 2 6 7 0 3 60 1 64 13 0 2 0 4 7 0 1 3 3 4 13 12 0 1 2 6 7 9 10 11 12 15 \
    17 18 0 0 1 0 3 3 0 2 1 2 3 7 0 0 4 0 2 1 0 11 1 52 13 0 2 1 0 11 1 52 0 0  59 1 1 12 0 \
    60 0 2 5 60 61 1 2 9 7 0 1 64  61 1 2 7 7 0 0 \
    62 1 3 63 4 7 0 0 1 0 6 1 0 2 1 0 9 1 45 3 0 2 1 0 9 1 45 4 0 2 1 0 9 1 45 6 0 2 1 0 10 1 48 \
    13 0 2 1 0 9 1 45 15 0 2 1 0 9 1 45 0 \
    63 0 2 16 63 0 0 4 7 0 1 3 10 11 12 12 0 1 2 3 4 6 7 9 13 15 17 18 0 0 1 0 3 10 0 2 1 2 10 7 \
    0 0 11 0 2 1 2 11 7 0 0 12 0 2 1 2 12 7 0 0 0 \
    64 0 4 7 0 1 3 3 4 13 12 0 1 2 6 7 9 10 11 12 15 17 18 0 0 1 0 3 3 0 2 1 2 3 7 0 0 4 0 2 1 0 \
    11 1 52 13 0 2 1 0 11 1 52 0  48 \
    0 22 39 39 4 34 34 5 47 47 6 45 45 7 65 90 29 95 95 29 97 122 29 64 64 33 40 40 34 41 41 35 \
    44 44 36 124 124 37 63 63 38 42 42 39 43 43 40 46 46 41 33 33 43 61 61 44 59 59 45 9 10 47 \
    13 13 47 32 32 47 \
    0 9 0 127 4 194 223 8 225 236 10 238 239 10 241 243 12 237 237 16 244 244 19 240 240 23 224 \
    224 26 \
    0 9 0 127 5 194 223 9 225 236 11 238 239 11 241 243 13 237 237 17 244 244 20 240 240 24 224 \
    224 27 \
    0 13 92 92 2 0 38 4 40 91 4 93 127 4 194 223 8 225 236 10 238 239 10 241 243 12 237 237 16 \
    244 244 19 240 240 23 224 224 26 39 39 32 \
    0 13 92 92 3 0 33 5 35 91 5 93 127 5 194 223 9 225 236 11 238 239 11 241 243 13 237 237 17 \
    244 244 20 240 240 24 224 224 27 34 34 31  0 1 47 47 48  0 1 62 62 46  0 1 128 191 4 \
    0 1 128 191 5  0 1 128 191 8  0 1 128 191 9  0 1 128 191 10  0 1 128 191 11  0 1 128 191 15 \
    0 1 128 191 22  0 1 128 159 8  0 1 128 159 9  0 1 128 159 22  0 1 128 143 10  0 1 128 143 11 \
    0 1 128 143 15  0 1 128 191 48  0 1 144 191 10  0 1 144 191 11  0 1 144 191 15 \
    0 1 160 191 8  0 1 160 191 9  0 1 160 191 22 \
    1 5 48 57 29 65 90 29 95 95 29 97 122 29 58 58 30  2 0  3 0  4 0  5 0  6 0  7 0  8 0  9 0 \
    10 0  11 0  12 0  13 1 46 46 42  14 0  15 0  16 0  17 0  18 0 \
    19 3 9 10 47 13 13 47 32 32 47 \
    20 10 241 243 14 225 236 15 238 239 15 237 237 18 244 244 21 194 223 22 240 240 25 224 224 \
    28 0 9 48 11 127 48  1";

/// The digit that a character stands for; none if it is no digit.
pub open spec fn digit_of(c: char) -> Option<u32> {
    if '0' <= c <= '9' {
        Some((c as u32 - '0' as u32) as u32)
    } else {
        None
    }
}

/// A number with one more digit; a number that is too large stays as it is.
pub open spec fn more_digits(x: u32, d: u32) -> u32 {
    if x < 100_000_000 {
        (x * 10 + d) as u32
    } else {
        x
    }
}

/// The numbers in the first `n` characters, and that at which they end.
pub open spec fn numbers_upto(cs: Seq<char>, n: nat) -> (Seq<u32>, Option<u32>)
    decreases n,
{
    if n == 0 || n > cs.len() {
        (Seq::empty(), None)
    } else {
        let (l, cur) = numbers_upto(cs, (n - 1) as nat);
        match (digit_of(cs[n - 1]), cur) {
            (Some(d), Some(x)) => (l, Some(more_digits(x, d))),
            (Some(d), None) => (l, Some(d)),
            (None, Some(x)) => (l.push(x), None),
            (None, None) => (l, None),
        }
    }
}

/// The numbers in the text, which stand apart.
pub open spec fn numbers_of(cs: Seq<char>) -> Seq<u32> {
    match numbers_upto(cs, cs.len()) {
        (l, Some(x)) => l.push(x),
        (l, None) => l,
    }
}

fn numbers(s: &str) -> (r: Vec<u32>)
    ensures
        r@ == numbers_of(s@),
{
    let cs = text::chars(s);
    let mut l: Vec<u32> = Vec::new();
    let mut cur: Option<u32> = None;
    let mut i: usize = 0;
    while i < cs.len()
        invariant
            i <= cs@.len(),
            (l@, cur) == numbers_upto(cs@, i as nat),
            cur matches Some(x) ==> x <= 999_999_999,
        decreases cs@.len() - i,
    {
        let c = cs[i];
        if '0' <= c && c <= '9' {
            let d: u32 = c as u32 - '0' as u32;
            cur = match cur {
                Some(x) => if x < 100_000_000 {
                    Some(x * 10 + d)
                } else {
                    Some(x)
                },
                None => Some(d),
            };
        } else {
            match cur {
                Some(x) => {
                    l.push(x);
                    cur = None;
                },
                None => {},
            }
        }
        i += 1;
    }
    match cur {
        Some(x) => {
            l.push(x);
        },
        None => {},
    }
    l
}

/// The words in the first `n` characters, and the one at which they end.
pub open spec fn words_upto(cs: Seq<char>, n: nat) -> (Seq<Seq<char>>, Seq<char>)
    decreases n,
{
    if n == 0 || n > cs.len() {
        (Seq::empty(), Seq::empty())
    } else {
        let (l, cur) = words_upto(cs, (n - 1) as nat);
        if cs[n - 1] != ' ' {
            (l, cur.push(cs[n - 1]))
        } else {
            (l.push(cur), Seq::empty())
        }
    }
}

/// The words of the text, between which there are spaces.
pub open spec fn words_of(cs: Seq<char>) -> Seq<Seq<char>> {
    let (l, cur) = words_upto(cs, cs.len());
    l.push(cur)
}

fn words(s: &str) -> (r: Vec<String>)
    ensures
        names::list_view(r@) == words_of(s@),
{
    let cs = text::chars(s);
    let mut l: Vec<String> = Vec::new();
    let mut cur = "".to_owned();
    proof {
        reveal_strlit("");
        assert(names::list_view(l@) =~= Seq::<Seq<char>>::empty());
        assert(cur@ =~= Seq::<char>::empty());
    }
    let mut i: usize = 0;
    while i < cs.len()
        invariant
            i <= cs@.len(),
            (names::list_view(l@), cur@) == words_upto(cs@, i as nat),
        decreases cs@.len() - i,
    {
        let ghost before = names::list_view(l@);
        let ghost word = cur@;
        if cs[i] != ' ' {
            cur.push(cs[i]);
        } else {
            l.push(cur);
            cur = "".to_owned();
            proof {
                reveal_strlit("");
                assert(names::list_view(l@) =~= before.push(word));
                assert(cur@ =~= Seq::<char>::empty());
            }
        }
        i += 1;
    }
    let ghost before = names::list_view(l@);
    let ghost word = cur@;
    l.push(cur);
    assert(names::list_view(l@) =~= before.push(word));
    l
}

/// The number at the position; 0 behind the last.
pub open spec fn num(ns: Seq<u32>, p: int) -> u32 {
    if 0 <= p < ns.len() {
        ns[p]
    } else {
        0
    }
}

/// The number as a 16-bit one; 0 if it is too large.
pub open spec fn small(x: u32) -> u16 {
    if x <= 0xFFFF {
        x as u16
    } else {
        0
    }
}

/// The position `k` numbers on, no further than behind the last.
pub open spec fn on(ns: Seq<u32>, p: int, k: int) -> int {
    if p + k <= ns.len() {
        p + k
    } else {
        ns.len() as int
    }
}

/// The position `q` if it is behind `p`, or else the one behind `p`.
pub open spec fn past(ns: Seq<u32>, p: int, q: int) -> int {
    if p < q <= ns.len() {
        q
    } else {
        p + 1
    }
}

fn at(ns: &Vec<u32>, p: usize, k: usize) -> (r: u32)
    requires
        p <= ns@.len(),
    ensures
        r == num(ns@, p + k),
{
    if k < ns.len() - p {
        ns[p + k]
    } else {
        0
    }
}

fn small_at(ns: &Vec<u32>, p: usize, k: usize) -> (r: u16)
    requires
        p <= ns@.len(),
    ensures
        r == small(num(ns@, p + k)),
{
    let x = at(ns, p, k);
    if x <= 0xFFFF {
        x as u16
    } else {
        0
    }
}

fn go_on(ns: &Vec<u32>, p: usize, k: usize) -> (r: usize)
    requires
        p <= ns@.len(),
    ensures
        r == on(ns@, p as int, k as int),
        r <= ns@.len(),
{
    if k <= ns.len() - p {
        p + k
    } else {
        ns.len()
    }
}

fn go_past(ns: &Vec<u32>, p: usize, q: usize) -> (r: usize)
    requires
        p < ns@.len(),
        q <= ns@.len(),
    ensures
        r == past(ns@, p as int, q as int),
        p < r <= ns@.len(),
{
    let len = ns.len();
    if p < q && q <= len {
        q
    } else {
        p + 1
    }
}

/// `n` token kinds from the position on.
pub open spec fn kinds_from(ns: Seq<u32>, p: int, n: nat) -> (Seq<u16>, int)
    decreases n,
{
    if n == 0 {
        (Seq::empty(), p)
    } else {
        let (l, q) = kinds_from(ns, p, (n - 1) as nat);
        (l.push(small(num(ns, q))), on(ns, q, 1))
    }
}

/// A list of token kinds.
pub open spec fn kinds_at(ns: Seq<u32>, p: int) -> (Seq<u16>, int) {
    kinds_from(ns, on(ns, p, 1), small(num(ns, p)) as nat)
}

fn read_kinds(ns: &Vec<u32>, p: usize) -> (r: (Vec<u16>, usize))
    requires
        p <= ns@.len(),
    ensures
        (r.0@, r.1 as int) == kinds_at(ns@, p as int),
        r.1 <= ns@.len(),
{
    let n = small_at(ns, p, 0);
    let start = go_on(ns, p, 1);
    let mut q = start;
    let mut l: Vec<u16> = Vec::new();
    let mut i: u16 = 0;
    while i < n
        invariant
            i <= n,
            q <= ns@.len(),
            (l@, q as int) == kinds_from(ns@, start as int, i as nat),
        decreases n - i,
    {
        l.push(small_at(ns, q, 0));
        q = go_on(ns, q, 1);
        i += 1;
    }
    (l, q)
}

/// `n` lists of token kinds from the position on.
pub open spec fn lists_from(ns: Seq<u32>, p: int, n: nat) -> (Seq<Seq<u16>>, int)
    decreases n,
{
    if n == 0 {
        (Seq::empty(), p)
    } else {
        let (l, q) = lists_from(ns, p, (n - 1) as nat);
        let (x, r) = kinds_at(ns, q);
        (l.push(x), r)
    }
}

/// A list of lists of token kinds.
pub open spec fn lists_at(ns: Seq<u32>, p: int) -> (Seq<Seq<u16>>, int) {
    lists_from(ns, on(ns, p, 1), small(num(ns, p)) as nat)
}

fn read_lists(ns: &Vec<u32>, p: usize) -> (r: (Vec<Vec<u16>>, usize))
    requires
        p <= ns@.len(),
    ensures
        (table::seqs_view(r.0@), r.1 as int) == lists_at(ns@, p as int),
        r.1 <= ns@.len(),
{
    let n = small_at(ns, p, 0);
    let start = go_on(ns, p, 1);
    let mut q = start;
    let mut l: Vec<Vec<u16>> = Vec::new();
    assert(table::seqs_view(l@) =~= Seq::<Seq<u16>>::empty());
    let mut i: u16 = 0;
    while i < n
        invariant
            i <= n,
            q <= ns@.len(),
            (table::seqs_view(l@), q as int) == lists_from(ns@, start as int, i as nat),
        decreases n - i,
    {
        let ghost before = table::seqs_view(l@);
        let (x, next) = read_kinds(ns, q);
        let ghost xv = x@;
        l.push(x);
        assert(table::seqs_view(l@) =~= before.push(xv));
        q = next;
        i += 1;
    }
    (l, q)
}

/// The name of a token kind.
pub open spec fn name_at(names: Seq<Seq<char>>, kind: u16) -> Seq<char> {
    if 0 < kind <= names.len() {
        names[kind - 1]
    } else {
        Seq::empty()
    }
}

fn name_of(names: &Vec<String>, kind: u16) -> (r: String)
    ensures
        r@ == name_at(names::list_view(names@), kind),
{
    if 0 < kind && kind as usize <= names.len() {
        assert(names::list_view(names@)[kind - 1] == names@[kind - 1]@);
        names[kind as usize - 1].clone()
    } else {
        let r = "".to_owned();
        proof {
            reveal_strlit("");
            assert(r@ =~= Seq::<char>::empty());
        }
        r
    }
}

/// A state; 0 is none.
pub open spec fn some_state(x: u32) -> Option<u32> {
    if x == 0 {
        None
    } else {
        Some(x)
    }
}

fn maybe_state(x: u32) -> (r: Option<u32>)
    ensures
        r == some_state(x),
{
    if x == 0 {
        None
    } else {
        Some(x)
    }
}

/// A label or a token kind; 0 is none.
pub open spec fn some_small(x: u16) -> Option<u16> {
    if x == 0 {
        None
    } else {
        Some(x)
    }
}

fn maybe_small(x: u16) -> (r: Option<u16>)
    ensures
        r == some_small(x),
{
    if x == 0 {
        None
    } else {
        Some(x)
    }
}

/// One step.
pub open spec fn instr_at(ns: Seq<u32>, names: Seq<Seq<char>>, p: int) -> (InstrView, int) {
    let k = small(num(ns, p + 1));
    if num(ns, p) == 0 {
        (InstrView::Enter(k), on(ns, p, 2))
    } else if num(ns, p) == 1 {
        (InstrView::Exit(k), on(ns, p, 2))
    } else if num(ns, p) == 2 {
        (
            InstrView::Expect(
                k,
                name_at(names, k),
                num(ns, p + 2),
                some_small(small(num(ns, p + 3))),
            ),
            on(ns, p, 4),
        )
    } else {
        (InstrView::PushRet(num(ns, p + 1)), on(ns, p, 2))
    }
}

/// `n` steps from the position on.
pub open spec fn instrs_from(ns: Seq<u32>, names: Seq<Seq<char>>, p: int, n: nat) -> (
    Seq<InstrView>,
    int,
)
    decreases n,
{
    if n == 0 {
        (Seq::empty(), p)
    } else {
        let (l, q) = instrs_from(ns, names, p, (n - 1) as nat);
        let (x, r) = instr_at(ns, names, q);
        (l.push(x), r)
    }
}

fn read_instrs(ns: &Vec<u32>, names: &Vec<String>, p: usize) -> (r: (Vec<Instr>, usize))
    requires
        p <= ns@.len(),
    ensures
        (table::instrs_view(r.0@), r.1 as int) == instrs_from(
            ns@,
            names::list_view(names@),
            on(ns@, p as int, 1),
            small(num(ns@, p as int)) as nat,
        ),
        r.1 <= ns@.len(),
{
    let ghost nv = names::list_view(names@);
    let n = small_at(ns, p, 0);
    let start = go_on(ns, p, 1);
    let mut q = start;
    let mut l: Vec<Instr> = Vec::new();
    assert(table::instrs_view(l@) =~= Seq::<InstrView>::empty());
    let mut i: u16 = 0;
    while i < n
        invariant
            i <= n,
            q <= ns@.len(),
            nv == names::list_view(names@),
            (table::instrs_view(l@), q as int) == instrs_from(ns@, nv, start as int, i as nat),
        decreases n - i,
    {
        let ghost before = table::instrs_view(l@);
        let tag = at(ns, q, 0);
        let k = small_at(ns, q, 1);
        let (x, next) = if tag == 0 {
            (Instr::Enter(k), go_on(ns, q, 2))
        } else if tag == 1 {
            (Instr::Exit(k), go_on(ns, q, 2))
        } else if tag == 2 {
            let x = Instr::Expect {
                kind: k,
                token_name: name_of(names, k),
                sync: at(ns, q, 2),
                label: maybe_small(small_at(ns, q, 3)),
            };
            (x, go_on(ns, q, 4))
        } else {
            (Instr::PushRet(at(ns, q, 1)), go_on(ns, q, 2))
        };
        let ghost xv = x@;
        assert((xv, next as int) == instr_at(ns@, nv, q as int));
        l.push(x);
        assert(table::instrs_view(l@) =~= before.push(xv));
        q = next;
        i += 1;
    }
    (l, q)
}

/// How to go on after an inserted token: a state to push, or 0, and one to go
/// to, or 0.
pub open spec fn post_first(push: u32, jump: u32) -> PostFirst {
    if push != 0 {
        PostFirst::PushRetAndJump { push, jump }
    } else if jump != 0 {
        PostFirst::Jump(jump)
    } else {
        PostFirst::Ret
    }
}

/// One insertion.
pub open spec fn insertion_at(ns: Seq<u32>, p: int) -> (InsertionView, int) {
    let (candidate_kinds, q) = kinds_at(ns, p);
    let (kinds_to_match, r) = kinds_at(ns, q);
    (
        InsertionView {
            candidate_kinds,
            kinds_to_match,
            post_first: post_first(num(ns, r), num(ns, r + 1)),
        },
        on(ns, r, 2),
    )
}

/// `n` insertions from the position on.
pub open spec fn insertions_from(ns: Seq<u32>, p: int, n: nat) -> (Seq<InsertionView>, int)
    decreases n,
{
    if n == 0 {
        (Seq::empty(), p)
    } else {
        let (l, q) = insertions_from(ns, p, (n - 1) as nat);
        let (x, r) = insertion_at(ns, q);
        (l.push(x), r)
    }
}

fn read_insertions(ns: &Vec<u32>, p: usize, n: u16) -> (r: (Vec<Insertion>, usize))
    requires
        p <= ns@.len(),
    ensures
        (recovery::insertions_view(r.0@), r.1 as int) == insertions_from(ns@, p as int, n as nat),
        r.1 <= ns@.len(),
{
    let mut q = p;
    let mut l: Vec<Insertion> = Vec::new();
    assert(recovery::insertions_view(l@) =~= Seq::<InsertionView>::empty());
    let mut i: u16 = 0;
    while i < n
        invariant
            i <= n,
            q <= ns@.len(),
            (recovery::insertions_view(l@), q as int) == insertions_from(
                ns@,
                p as int,
                i as nat,
            ),
        decreases n - i,
    {
        let ghost before = recovery::insertions_view(l@);
        let (candidate_kinds, a) = read_kinds(ns, q);
        let (kinds_to_match, b) = read_kinds(ns, a);
        let push = at(ns, b, 0);
        let jump = at(ns, b, 1);
        let post_first = if push != 0 {
            PostFirst::PushRetAndJump { push, jump }
        } else if jump != 0 {
            PostFirst::Jump(jump)
        } else {
            PostFirst::Ret
        };
        let x = Insertion { candidate_kinds, kinds_to_match, post_first };
        let ghost xv = x@;
        l.push(x);
        assert(recovery::insertions_view(l@) =~= before.push(xv));
        q = go_on(ns, b, 2);
        i += 1;
    }
    (l, q)
}

/// A body: its steps and its end.
pub open spec fn body_at(ns: Seq<u32>, names: Seq<Seq<char>>, p: int) -> (BodyView, int)
    decreases ns.len() - p,
{
    if p < 0 || p >= ns.len() {
        (BodyView { instrs: Seq::empty(), tail: TailView::Ret }, p)
    } else {
        let (instrs, q) = instrs_from(ns, names, on(ns, p, 1), small(num(ns, p)) as nat);
        let (tail, r) = tail_at(ns, names, past(ns, p, q));
        (BodyView { instrs, tail }, r)
    }
}

/// The end of a body.
pub open spec fn tail_at(ns: Seq<u32>, names: Seq<Seq<char>>, p: int) -> (TailView, int)
    decreases ns.len() - p,
{
    if p < 0 || p >= ns.len() {
        (TailView::Ret, p)
    } else if num(ns, p) == 1 {
        (TailView::Jump(num(ns, p + 1)), on(ns, p, 2))
    } else if num(ns, p) == 2 {
        let (body, q) = body_at(ns, names, on(ns, p, 4));
        (
            TailView::Star(
                num(ns, p + 1),
                Box::new(body),
                some_state(num(ns, p + 3)),
                num(ns, p + 2),
            ),
            q,
        )
    } else if num(ns, p) == 3 {
        let (body, q) = body_at(ns, names, on(ns, p, 3));
        (TailView::Opt(num(ns, p + 1), Box::new(body), some_state(num(ns, p + 2))), q)
    } else if num(ns, p) == 4 {
        let (ins, q) = insertions_from(ns, on(ns, p, 4), small(num(ns, p + 3)) as nat);
        let (tree, r) = tree_at(ns, names, past(ns, p, q));
        (TailView::Dispatch(tree, num(ns, p + 1), some_state(num(ns, p + 2)), ins), r)
    } else {
        (TailView::Ret, on(ns, p, 1))
    }
}

/// A leaf of a decision tree.
pub open spec fn leaf_at(ns: Seq<u32>, names: Seq<Seq<char>>, p: int) -> (LeafView, int)
    decreases ns.len() - p,
{
    if p < 0 || p >= ns.len() {
        (LeafView::Error, p)
    } else if num(ns, p) == 1 {
        (LeafView::Fallthrough, on(ns, p, 1))
    } else if num(ns, p) == 2 {
        let (body, q) = body_at(ns, names, on(ns, p, 1));
        (LeafView::Arm(Box::new(body)), q)
    } else {
        (LeafView::Error, on(ns, p, 1))
    }
}

/// A decision tree.
pub open spec fn tree_at(ns: Seq<u32>, names: Seq<Seq<char>>, p: int) -> (TreeView, int)
    decreases ns.len() - p,
{
    if p < 0 || p >= ns.len() {
        (TreeView::Leaf(LeafView::Error), p)
    } else if num(ns, p) == 1 {
        let (kinds, trees, q) = arms_from(ns, names, on(ns, p, 3), small(num(ns, p + 2)) as nat);
        let (default, r) = leaf_at(ns, names, past(ns, p, q));
        (TreeView::Switch(small(num(ns, p + 1)) as u8, kinds, trees, default), r)
    } else {
        let (leaf, q) = leaf_at(ns, names, on(ns, p, 1));
        (TreeView::Leaf(leaf), q)
    }
}

/// `n` branches of a decision tree from the position on.
pub open spec fn arms_from(ns: Seq<u32>, names: Seq<Seq<char>>, p: int, n: nat) -> (
    Seq<u16>,
    Seq<TreeView>,
    int,
)
    decreases ns.len() - p,
{
    if n == 0 || p < 0 || p >= ns.len() {
        (Seq::empty(), Seq::empty(), p)
    } else {
        let (tree, q) = tree_at(ns, names, on(ns, p, 1));
        let (kinds, trees, r) = arms_from(ns, names, past(ns, p, q), (n - 1) as nat);
        (seq![small(num(ns, p))] + kinds, seq![tree] + trees, r)
    }
}

fn read_body(ns: &Vec<u32>, names: &Vec<String>, p: usize) -> (r: (Body, usize))
    requires
        p <= ns@.len(),
    ensures
        (r.0@, r.1 as int) == body_at(ns@, names::list_view(names@), p as int),
        r.1 <= ns@.len(),
    decreases ns@.len() - p,
{
    let len = ns.len();
    if p >= len {
        let b = Body { instrs: Vec::new(), tail: Tail::Ret };
        assert(b@.instrs =~= Seq::<InstrView>::empty());
        return (b, p);
    }
    let (instrs, q) = read_instrs(ns, names, p);
    let (tail, r) = read_tail(ns, names, go_past(ns, p, q));
    (Body { instrs, tail }, r)
}

fn read_tail(ns: &Vec<u32>, names: &Vec<String>, p: usize) -> (r: (Tail, usize))
    requires
        p <= ns@.len(),
    ensures
        (r.0@, r.1 as int) == tail_at(ns@, names::list_view(names@), p as int),
        r.1 <= ns@.len(),
    decreases ns@.len() - p,
{
    let len = ns.len();
    if p >= len {
        return (Tail::Ret, p);
    }
    let tag = at(ns, p, 0);
    if tag == 1 {
        (Tail::Jump(at(ns, p, 1)), go_on(ns, p, 2))
    } else if tag == 2 {
        let (body, q) = read_body(ns, names, go_on(ns, p, 4));
        let t = Tail::Star {
            first: at(ns, p, 1),
            body: Box::new(body),
            cont: maybe_state(at(ns, p, 3)),
            head: at(ns, p, 2),
        };
        (t, q)
    } else if tag == 3 {
        let (body, q) = read_body(ns, names, go_on(ns, p, 3));
        let t = Tail::Opt {
            first: at(ns, p, 1),
            body: Box::new(body),
            cont: maybe_state(at(ns, p, 2)),
        };
        (t, q)
    } else if tag == 4 {
        let (insertions, q) = read_insertions(ns, go_on(ns, p, 4), small_at(ns, p, 3));
        let (tree, r) = read_tree(ns, names, go_past(ns, p, q));
        let t = Tail::Dispatch {
            tree,
            sync: at(ns, p, 1),
            cont: maybe_state(at(ns, p, 2)),
            insertions,
        };
        (t, r)
    } else {
        (Tail::Ret, go_on(ns, p, 1))
    }
}

fn read_leaf(ns: &Vec<u32>, names: &Vec<String>, p: usize) -> (r: (DispatchLeaf, usize))
    requires
        p <= ns@.len(),
    ensures
        (r.0@, r.1 as int) == leaf_at(ns@, names::list_view(names@), p as int),
        r.1 <= ns@.len(),
    decreases ns@.len() - p,
{
    let len = ns.len();
    if p >= len {
        return (DispatchLeaf::Error, p);
    }
    let tag = at(ns, p, 0);
    if tag == 1 {
        (DispatchLeaf::Fallthrough, go_on(ns, p, 1))
    } else if tag == 2 {
        let (body, q) = read_body(ns, names, go_on(ns, p, 1));
        (DispatchLeaf::Arm(Box::new(body)), q)
    } else {
        (DispatchLeaf::Error, go_on(ns, p, 1))
    }
}

fn read_tree(ns: &Vec<u32>, names: &Vec<String>, p: usize) -> (r: (DispatchTree, usize))
    requires
        p <= ns@.len(),
    ensures
        (r.0@, r.1 as int) == tree_at(ns@, names::list_view(names@), p as int),
        r.1 <= ns@.len(),
    decreases ns@.len() - p,
{
    let len = ns.len();
    if p >= len {
        return (DispatchTree::Leaf(DispatchLeaf::Error), p);
    }
    if at(ns, p, 0) == 1 {
        let depth = small_at(ns, p, 1);
        let (arms, q) = read_arms(ns, names, go_on(ns, p, 3), small_at(ns, p, 2));
        let (default, r) = read_leaf(ns, names, go_past(ns, p, q));
        let depth = #[verifier::truncate] (depth as u8);
        (DispatchTree::Switch { depth, arms, default }, r)
    } else {
        let (leaf, q) = read_leaf(ns, names, go_on(ns, p, 1));
        (DispatchTree::Leaf(leaf), q)
    }
}

fn read_arms(ns: &Vec<u32>, names: &Vec<String>, p: usize, n: u16) -> (r: (
    Vec<(u16, DispatchTree)>,
    usize,
))
    requires
        p <= ns@.len(),
    ensures
        (table::arm_kinds(r.0@), table::arm_trees(r.0@), r.1 as int) == arms_from(
            ns@,
            names::list_view(names@),
            p as int,
            n as nat,
        ),
        r.1 <= ns@.len(),
    decreases ns@.len() - p,
{
    let len = ns.len();
    if n == 0 || p >= len {
        let l: Vec<(u16, DispatchTree)> = Vec::new();
        assert(table::arm_kinds(l@) =~= Seq::<u16>::empty());
        assert(table::arm_trees(l@) =~= Seq::<TreeView>::empty());
        return (l, p);
    }
    let kind = small_at(ns, p, 0);
    let (tree, q) = read_tree(ns, names, go_on(ns, p, 1));
    let (rest, r) = read_arms(ns, names, go_past(ns, p, q), n - 1);
    let ghost tv = tree@;
    let mut l: Vec<(u16, DispatchTree)> = Vec::new();
    l.push((kind, tree));
    let ghost rv = rest@;
    for x in it: rest
        invariant
            it.seq() == rv,
            l@.len() == 1 + it.index(),
            l@[0].0 == kind,
            l@[0].1@ == tv,
            forall|i: int| 0 <= i < it.index() ==> #[trigger] l@[1 + i] == rv[i],
    {
        l.push(x);
    }
    proof {
        assert forall|i: int| 1 <= i < l@.len() implies #[trigger] l@[i] == rv[i - 1] by {
            assert(l@[1 + (i - 1)] == rv[i - 1]);
        }
        assert(table::arm_kinds(l@) =~= seq![kind] + table::arm_kinds(rv));
        assert(table::arm_trees(l@) =~= seq![tv] + table::arm_trees(rv));
    }
    (l, r)
}

/// `n` states from the position on, in ascending order of their ids; what is
/// out of order is passed over.
pub open spec fn states_from(ns: Seq<u32>, names: Seq<Seq<char>>, p: int, n: nat) -> (
    Seq<(u32, BodyView)>,
    int,
)
    decreases n,
{
    if n == 0 {
        (Seq::empty(), p)
    } else {
        let (l, q) = states_from(ns, names, p, (n - 1) as nat);
        let (b, r) = body_at(ns, names, on(ns, q, 1));
        if l.len() == 0 || l.last().0 < num(ns, q) {
            (l.push((num(ns, q), b)), r)
        } else {
            (l, r)
        }
    }
}

/// What states do, by id.
pub open spec fn bodies(l: Seq<StateView>) -> Seq<(u32, BodyView)> {
    Seq::new(l.len(), |i: int| (l[i].id, l[i].body))
}

fn read_states(ns: &Vec<u32>, names: &Vec<String>, p: usize) -> (r: (StateMap, usize))
    requires
        p <= ns@.len(),
    ensures
        r.0.wf(),
        (bodies(r.0@), r.1 as int) == states_from(
            ns@,
            names::list_view(names@),
            on(ns@, p as int, 1),
            small(num(ns@, p as int)) as nat,
        ),
        r.1 <= ns@.len(),
{
    let ghost nv = names::list_view(names@);
    let n = small_at(ns, p, 0);
    let start = go_on(ns, p, 1);
    let mut q = start;
    let mut l = StateMap::new();
    let mut last: Option<u32> = None;
    assert(bodies(l@) =~= Seq::<(u32, BodyView)>::empty());
    let mut i: u16 = 0;
    while i < n
        invariant
            i <= n,
            q <= ns@.len(),
            nv == names::list_view(names@),
            l.wf(),
            last is None <==> l@.len() == 0,
            last matches Some(id) ==> l@.last().id == id,
            (bodies(l@), q as int) == states_from(ns@, nv, start as int, i as nat),
        decreases n - i,
    {
        let ghost before = l@;
        let id = at(ns, q, 0);
        let (body, next) = read_body(ns, names, go_on(ns, q, 1));
        let fits = match last {
            None => true,
            Some(x) => x < id,
        };
        let ghost bv = body@;
        if fits {
            let s = State { id, label: "".to_owned(), rule: "".to_owned(), body };
            l.insert(id, s);
            last = Some(id);
            assert(bodies(l@) =~= bodies(before).push((id, bv)));
        }
        q = next;
        i += 1;
    }
    (l, q)
}

/// A row of the lexer automaton: the state entered on each byte, and the kind
/// accepted.
pub ghost struct RowView {
    pub table: Seq<usize>,
    pub accept: Option<u16>,
}

/// A byte; 0 if the number is too large.
pub open spec fn byte(x: u32) -> int {
    if x <= 0xFF {
        x as int
    } else {
        0
    }
}

/// The table with the state `t` for the bytes from `lo` up to `hi`.
pub open spec fn filled(table: Seq<usize>, lo: int, hi: int, t: usize) -> Seq<usize> {
    Seq::new(
        256,
        |b: int|
            if lo <= b <= hi {
                t
            } else {
                table[b]
            },
    )
}

/// A state of at most `n`; 0 if there is no such state.
pub open spec fn within(x: u32, n: int) -> usize {
    if x <= n {
        x as usize
    } else {
        0
    }
}

/// `m` byte ranges from the position on filled in.
pub open spec fn ranges_from(ns: Seq<u32>, p: int, m: nat, n: int) -> (Seq<usize>, int)
    decreases m,
{
    if m == 0 {
        (Seq::new(256, |b: int| 0usize), p)
    } else {
        let (t, q) = ranges_from(ns, p, (m - 1) as nat, n);
        (
            filled(t, byte(num(ns, q)), byte(num(ns, q + 1)), within(num(ns, q + 2), n)),
            on(ns, q, 3),
        )
    }
}

/// One row of an automaton of `n` states.
pub open spec fn row_at(ns: Seq<u32>, p: int, n: int) -> (RowView, int) {
    let (table, q) = ranges_from(ns, on(ns, p, 2), small(num(ns, p + 1)) as nat, n);
    (RowView { table, accept: some_small(small(num(ns, p))) }, q)
}

/// `m` rows of an automaton of `n` states.
pub open spec fn rows_from(ns: Seq<u32>, p: int, m: nat, n: int) -> (Seq<RowView>, int)
    decreases m,
{
    if m == 0 {
        (Seq::empty(), p)
    } else {
        let (l, q) = rows_from(ns, p, (m - 1) as nat, n);
        let (x, r) = row_at(ns, q, n);
        (l.push(x), r)
    }
}

/// The number of states of the automaton, at least one.
pub open spec fn row_count(ns: Seq<u32>, p: int) -> int {
    if small(num(ns, p)) == 0 {
        1
    } else {
        small(num(ns, p)) as int
    }
}

/// What the rows say.
pub open spec fn rows_say(rows: Seq<Row>, l: Seq<RowView>) -> bool {
    &&& rows.len() == l.len()
    &&& forall|i: int|
        0 <= i < rows.len() ==> (#[trigger] rows[i]).table@ == l[i].table && rows[i].accept
            == l[i].accept
}

fn read_row(ns: &Vec<u32>, p: usize, n: u16) -> (r: (Row, usize))
    requires
        p <= ns@.len(),
        n > 0,
    ensures
        (RowView { table: r.0.table@, accept: r.0.accept }, r.1 as int) == row_at(
            ns@,
            p as int,
            n as int,
        ),
        r.0.table@.len() == 256,
        forall|b: int| 0 <= b < 256 ==> #[trigger] r.0.table@[b] <= n,
        r.1 <= ns@.len(),
{
    let accept = maybe_small(small_at(ns, p, 0));
    let m = small_at(ns, p, 1);
    let start = go_on(ns, p, 2);
    let mut q = start;
    let mut t = subset::zero_table();
    assert(t@ =~= Seq::new(256, |b: int| 0usize));
    let mut i: u16 = 0;
    while i < m
        invariant
            i <= m,
            q <= ns@.len(),
            n > 0,
            t@.len() == 256,
            forall|b: int| 0 <= b < 256 ==> #[trigger] t@[b] <= n,
            (t@, q as int) == ranges_from(ns@, start as int, i as nat, n as int),
        decreases m - i,
    {
        let ghost before = t@;
        let lo = at(ns, q, 0);
        let hi = at(ns, q, 1);
        let to = at(ns, q, 2);
        let lo: usize = if lo <= 0xFF {
            lo as usize
        } else {
            0
        };
        let hi: usize = if hi <= 0xFF {
            hi as usize
        } else {
            0
        };
        let to: usize = if to <= n as u32 {
            to as usize
        } else {
            0
        };
        let mut b: usize = lo;
        while b <= hi
            invariant
                lo <= b,
                b <= 256,
                hi <= 0xFF,
                to <= n,
                t@.len() == 256,
                before.len() == 256,
                forall|x: int| 0 <= x < 256 ==> #[trigger] before[x] <= n,
                forall|x: int|
                    0 <= x < 256 ==> #[trigger] t@[x] == (if lo <= x < b && x <= hi {
                        to
                    } else {
                        before[x]
                    }),
            decreases 256 - b,
        {
            t.set(b, to);
            b += 1;
        }
        assert(t@ =~= filled(before, lo as int, hi as int, to));
        q = go_on(ns, q, 3);
        i += 1;
    }
    (Row { table: t, accept }, q)
}

fn read_rows(ns: &Vec<u32>, p: usize) -> (r: (Vec<Row>, usize))
    requires
        p <= ns@.len(),
    ensures
        ({
            let n = row_count(ns@, p as int);
            let (l, q) = rows_from(ns@, on(ns@, p as int, 1), n as nat, n);
            rows_say(r.0@, l) && r.1 == q
        }),
        subset::rows_ok(r.0@),
        r.0@.len() <= 0xFFFF,
        r.1 <= ns@.len(),
{
    let n = small_at(ns, p, 0);
    let n: u16 = if n == 0 {
        1
    } else {
        n
    };
    let start = go_on(ns, p, 1);
    let mut q = start;
    let mut l: Vec<Row> = Vec::new();
    let mut i: u16 = 0;
    while i < n
        invariant
            i <= n,
            n > 0,
            q <= ns@.len(),
            l@.len() == i,
            rows_say(l@, rows_from(ns@, start as int, i as nat, n as int).0),
            q == rows_from(ns@, start as int, i as nat, n as int).1,
            forall|k: int| 0 <= k < l@.len() ==> (#[trigger] l@[k]).table@.len() == 256,
            forall|k: int, b: int|
                0 <= k < l@.len() && 0 <= b < 256 ==> #[trigger] l@[k].table@[b] <= n,
        decreases n - i,
    {
        let (x, next) = read_row(ns, q, n);
        l.push(x);
        q = next;
        i += 1;
    }
    (l, q)
}

/// What the numbers say.
pub ghost struct NotationView {
    pub k: int,
    pub skipped: Seq<u16>,
    pub firsts: Seq<Seq<Seq<u16>>>,
    pub syncs: Seq<Seq<u16>>,
    pub states: Seq<(u32, BodyView)>,
    pub rows: Seq<RowView>,
    pub entry: u32,
}

/// `n` FIRST sets from the position on.
pub open spec fn firsts_from(ns: Seq<u32>, p: int, n: nat) -> (Seq<Seq<Seq<u16>>>, int)
    decreases n,
{
    if n == 0 {
        (Seq::empty(), p)
    } else {
        let (l, q) = firsts_from(ns, p, (n - 1) as nat);
        let (x, r) = lists_at(ns, q);
        (l.push(x), r)
    }
}

/// What the numbers say, part by part.
pub open spec fn notation_of(ns: Seq<u32>, names: Seq<Seq<char>>) -> NotationView {
    let k = if small(num(ns, 0)) == 0 {
        1int
    } else {
        small(num(ns, 0)) as int
    };
    let (skipped, a) = kinds_at(ns, on(ns, 0, 1));
    let (firsts, b) = firsts_from(ns, on(ns, a, 1), small(num(ns, a)) as nat);
    let (syncs, c) = lists_at(ns, b);
    let (states, d) = states_from(ns, names, on(ns, c, 1), small(num(ns, c)) as nat);
    let n = row_count(ns, d);
    let (rows, e) = rows_from(ns, on(ns, d, 1), n as nat, n);
    NotationView { k, skipped, firsts, syncs, states, rows, entry: num(ns, e) }
}

/// The automaton reads what the rows say.
pub open spec fn reads_rows(dfa: Seq<DfaState>, l: Seq<RowView>) -> bool {
    exists|rows: Seq<Row>| #[trigger]
        rows_say(rows, l) && forall|w: Seq<u8>| #[trigger]
            lexer_dfa::seen(dfa, lexer_dfa::START, w) == subset::outcome(rows, 1, w)
}

/// The table is what the numbers say: tokens with the given names, of which
/// some are skipped, one lexer mode, and the sets and states.
pub open spec fn says(st: StateTable, v: NotationView, names: Seq<Seq<char>>) -> bool {
    &&& st.k == v.k
    &&& st.tokens@.len() == names.len()
    &&& forall|i: int|
        0 <= i < st.tokens@.len() ==> (#[trigger] st.tokens@[i]).display_name@ == names[i]
            && st.tokens@[i].skip == (i < v.skipped.len() && v.skipped[i] != 0)
            && st.tokens@[i].mode_actions@.len() == 0
    &&& st.first_sets@.len() == v.firsts.len()
    &&& forall|i: int|
        0 <= i < st.first_sets@.len() ==> table::seqs_view((#[trigger] st.first_sets@[i]).seqs@)
            == v.firsts[i]
    &&& st.sync_sets@.len() == v.syncs.len()
    &&& forall|i: int|
        0 <= i < st.sync_sets@.len() ==> (#[trigger] st.sync_sets@[i]).kinds@ == v.syncs[i]
    &&& bodies(st.states@) == v.states
    &&& st.modes@.len() == 1
    &&& reads_rows(st.modes@[0].dfa@, v.rows)
}

/// What the table of the notation says.
pub open spec fn notation() -> NotationView {
    notation_of(numbers_of(NUMBERS@), words_of(NAMES@))
}

/// The table is that of the notation.
pub open spec fn is_notation_table(st: StateTable) -> bool {
    says(st, notation(), words_of(NAMES@))
}

fn token_list(names: &Vec<String>, skipped: &Vec<u16>) -> (r: Vec<TokenInfo>)
    ensures
        r@.len() == names@.len(),
        forall|i: int|
            0 <= i < r@.len() ==> (#[trigger] r@[i]).display_name@ == names@[i]@ && r@[i].skip
                == (i < skipped@.len() && skipped@[i] != 0) && r@[i].mode_actions@.len() == 0,
{
    let mut r: Vec<TokenInfo> = Vec::new();
    let mut i: usize = 0;
    while i < names.len()
        invariant
            i <= names@.len(),
            r@.len() == i,
            forall|k: int|
                0 <= k < r@.len() ==> (#[trigger] r@[k]).display_name@ == names@[k]@ && r@[k].skip
                    == (k < skipped@.len() && skipped@[k] != 0) && r@[k].mode_actions@.len() == 0,
        decreases names@.len() - i,
    {
        let kind: u16 = if i < 0xFFFF {
            (i + 1) as u16
        } else {
            0
        };
        r.push(
            TokenInfo {
                name: names[i].clone(),
                display_name: names[i].clone(),
                pattern: TokenPattern::Empty,
                skip: i < skipped.len() && skipped[i] != 0,
                kind,
                mode_ids: Vec::new(),
                mode_actions: Vec::new(),
            },
        );
        i += 1;
    }
    r
}

fn first_list(ns: &Vec<u32>, p: usize) -> (r: (Vec<FirstSet>, usize))
    requires
        p <= ns@.len(),
    ensures
        ({
            let (l, q) = firsts_from(
                ns@,
                on(ns@, p as int, 1),
                small(num(ns@, p as int)) as nat,
            );
            r.0@.len() == l.len() && r.1 == q && forall|i: int|
                0 <= i < r.0@.len() ==> table::seqs_view((#[trigger] r.0@[i]).seqs@) == l[i]
        }),
        r.1 <= ns@.len(),
{
    let n = small_at(ns, p, 0);
    let start = go_on(ns, p, 1);
    let mut q = start;
    let mut r: Vec<FirstSet> = Vec::new();
    let mut i: u16 = 0;
    while i < n
        invariant
            i <= n,
            q <= ns@.len(),
            r@.len() == i,
            r@.len() == firsts_from(ns@, start as int, i as nat).0.len(),
            q == firsts_from(ns@, start as int, i as nat).1,
            forall|k: int|
                0 <= k < r@.len() ==> table::seqs_view((#[trigger] r@[k]).seqs@) == firsts_from(
                    ns@,
                    start as int,
                    i as nat,
                ).0[k],
        decreases n - i,
    {
        let (seqs, next) = read_lists(ns, q);
        r.push(FirstSet { id: i as u32, seqs, has_references: false });
        q = next;
        i += 1;
    }
    (r, q)
}

fn sync_list(ns: &Vec<u32>, p: usize) -> (r: (Vec<SyncSet>, usize))
    requires
        p <= ns@.len(),
    ensures
        r.0@.len() == lists_at(ns@, p as int).0.len(),
        r.1 == lists_at(ns@, p as int).1,
        forall|i: int|
            0 <= i < r.0@.len() ==> (#[trigger] r.0@[i]).kinds@ == lists_at(ns@, p as int).0[i],
        r.1 <= ns@.len(),
{
    let (lists, q) = read_lists(ns, p);
    let ghost lv = table::seqs_view(lists@);
    let ghost l0 = lists@;
    let mut r: Vec<SyncSet> = Vec::new();
    let mut id: u32 = 0;
    for kinds in it: lists
        invariant
            it.seq() == l0,
            lv == table::seqs_view(l0),
            r@.len() == it.index(),
            forall|i: int| 0 <= i < r@.len() ==> (#[trigger] r@[i]).kinds@ == lv[i],
    {
        assert(lv[it.index()] == kinds@);
        r.push(SyncSet { id, kinds });
        id = id.wrapping_add(1);
    }
    (r, q)
}

/// The state table of the notation, and the state that a file begins in.
pub fn notation_table() -> (r: (StateTable, u32))
    ensures
        is_notation_table(r.0),
        r.1 == notation().entry,
        r.0.k >= 1,
        r.0.states.wf(),
        lexer::modes_ok(r.0.modes@),
{
    let ns = numbers(NUMBERS);
    let names = words(NAMES);
    let k = small_at(&ns, 0, 0);
    let k: usize = if k == 0 {
        1
    } else {
        k as usize
    };
    let (skipped, a) = read_kinds(&ns, go_on(&ns, 0, 1));
    let (first_sets, b) = first_list(&ns, a);
    let (sync_sets, c) = sync_list(&ns, b);
    let (states, d) = read_states(&ns, &names, c);
    let (rows, e) = read_rows(&ns, d);
    let dfa = lexer_dfa::finish(&rows);
    let entry = at(&ns, e, 0);
    let ghost v = notation();
    proof {
        assert(rows_say(rows@, v.rows));
        assert forall|w: Seq<u8>| #[trigger]
            lexer_dfa::seen(dfa@, lexer_dfa::START, w) == subset::outcome(rows@, 1, w) by {}
        assert(reads_rows(dfa@, v.rows));
    }
    let tokens = token_list(&names, &skipped);
    let mut modes: Vec<ModeInfo> = Vec::new();
    modes.push(ModeInfo { id: 0, name: "default".to_owned(), dfa });
    let st = StateTable {
        grammar_name: "syntax".to_owned(),
        tokens,
        rule_kinds: Vec::new(),
        labels: Vec::new(),
        first_sets,
        sync_sets,
        rule_sync: NameMap::new(),
        states,
        entry_states: Vec::new(),
        k,
        modes,
    };
    assert forall|i: int| 0 <= i < st.tokens@.len() implies (
    #[trigger] st.tokens@[i]).display_name@ == words_of(NAMES@)[i] by {
        assert(names::list_view(names@)[i] == names@[i]@);
    }
    (st, entry)
}

} // verus!
