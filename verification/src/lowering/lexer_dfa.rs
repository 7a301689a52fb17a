//! Compile a set of token patterns into a deterministic byte-level automaton.
//!
//! The tokens become one nondeterministic automaton, which is determinised
//! and minimised. [`DEAD`] is a sentinel that means "stop"; it is never the
//! id of a state in the [`compile`] output. The start state's id is always
//! [`START`].
use vstd::prelude::*;

use crate::lowering::minimize;
use crate::lowering::nfa::{self, Nfa};
use crate::lowering::subset::{self, Row};
use crate::lowering::table::TokenInfo;
use crate::lowering::trim;

verus! {

/// Reserved id: the dead sink the lexer stops on.
pub const DEAD: u32 = 0;

/// Start state of every compiled lexer automaton.
pub const START: u32 = 1;

/// The largest number of states; their ids have 32 bits.
pub const MAX_STATES: usize = 0xFFFF_FFFE;

/// One state: its own id, byte transitions grouped into [`ByteArm`]s, and an
/// optional accepted token kind.
#[derive(Debug)]
pub struct DfaState {
    /// State id, one more than this entry's index in the list of states.
    pub id: u32,
    /// Byte transitions, one arm for each target in ascending order.
    pub arms: Vec<ByteArm>,
    /// Token-kind id accepted in this state, if any.
    pub accept: Option<u16>,
}

/// One transition target with every byte that leads to it, packed into
/// inclusive ranges.
#[derive(Debug)]
pub struct ByteArm {
    /// Destination state id for every byte in `ranges`.
    pub target: u32,
    /// If `target` is an accept state, the token-kind id it accepts.
    pub target_accept: Option<u16>,
    /// Inclusive byte ranges that all lead to `target`, sorted and with a gap
    /// between neighbours.
    pub ranges: Vec<(u8, u8)>,
}

impl ByteArm {
    /// Byte `b` is in a range of the arm.
    pub open spec fn covers(self, b: u8) -> bool {
        exists|j: int|
            0 <= j < self.ranges@.len() && (#[trigger] self.ranges@[j]).0 <= b <= self.ranges@[j].1
    }

    /// The ranges are non-empty, sorted, and have a gap between neighbours.
    pub open spec fn packed(self) -> bool {
        &&& self.ranges@.len() > 0
        &&& forall|j: int|
            0 <= j < self.ranges@.len() ==> (#[trigger] self.ranges@[j]).0 <= self.ranges@[j].1
        &&& forall|j: int, k: int|
            0 <= j < k < self.ranges@.len() ==> (#[trigger] self.ranges@[j]).1 + 1 < (
            #[trigger] self.ranges@[k]).0
    }
}

impl DfaState {
    /// The id of the state entered on `b`; [`DEAD`] if no arm covers it.
    pub open spec fn next(self, b: u8) -> u32 {
        if exists|i: int| 0 <= i < self.arms@.len() && (#[trigger] self.arms@[i]).covers(b) {
            self.arms@[choose|i: int|
                0 <= i < self.arms@.len() && (#[trigger] self.arms@[i]).covers(b)].target
        } else {
            DEAD
        }
    }

    /// Byte ranges of the transitions that loop back to the state itself;
    /// empty when the state has no self-loop.
    pub fn self_loop_ranges(&self) -> (r: &[(u8, u8)])
        ensures
            (exists|i: int|
                0 <= i < self.arms@.len() && (#[trigger] self.arms@[i]).target == self.id)
                ==> exists|i: int| #[trigger]
                first_arm(self.arms@, self.id, i) && r@ == self.arms@[i].ranges@,
            (forall|i: int|
                0 <= i < self.arms@.len() ==> (#[trigger] self.arms@[i]).target != self.id)
                ==> r@.len() == 0,
    {
        let mut i: usize = 0;
        while i < self.arms.len()
            invariant
                i <= self.arms@.len(),
                forall|k: int| 0 <= k < i ==> (#[trigger] self.arms@[k]).target != self.id,
            decreases self.arms@.len() - i,
        {
            if self.arms[i].target == self.id {
                assert(first_arm(self.arms@, self.id, i as int));
                return self.arms[i].ranges.as_slice();
            }
            i += 1;
        }
        &[]
    }
}

/// `i` is the first arm with the target.
pub open spec fn first_arm(arms: Seq<ByteArm>, target: u32, i: int) -> bool {
    &&& 0 <= i < arms.len()
    &&& arms[i].target == target
    &&& forall|k: int| 0 <= k < i ==> (#[trigger] arms[k]).target != target
}

/// The id of the state after reading `w` from the state `id`.
pub open spec fn run(dfa: Seq<DfaState>, id: u32, w: Seq<u8>) -> u32
    decreases w.len(),
{
    if id == DEAD || w.len() == 0 {
        id
    } else {
        run(dfa, dfa[id - 1].next(w[0]), w.skip(1))
    }
}

/// The token kind accepted after reading exactly `w` from the start.
pub open spec fn accepted(dfa: Seq<DfaState>, w: Seq<u8>) -> Option<u16> {
    let id = run(dfa, START, w);
    if id == DEAD {
        None
    } else {
        dfa[id - 1].accept
    }
}

/// The states are numbered from [`START`] in order, none is [`DEAD`], and the
/// transitions of each are deterministic, grouped by target in ascending
/// order, and lead to states of the list.
pub open spec fn well_formed(dfa: Seq<DfaState>) -> bool {
    &&& 0 < dfa.len() < u32::MAX
    &&& forall|i: int| 0 <= i < dfa.len() ==> (#[trigger] dfa[i]).id == i + 1
    &&& forall|i: int| 0 <= i < dfa.len() ==> arms_ok(dfa, (#[trigger] dfa[i]).arms@)
}

/// See [`well_formed`].
pub open spec fn arms_ok(dfa: Seq<DfaState>, arms: Seq<ByteArm>) -> bool {
    &&& forall|i: int, j: int|
        0 <= i < j < arms.len() ==> (#[trigger] arms[i]).target < (#[trigger] arms[j]).target
    &&& forall|i: int|
        0 <= i < arms.len() ==> 0 < (#[trigger] arms[i]).target <= dfa.len()
            && arms[i].target_accept == dfa[arms[i].target - 1].accept && arms[i].packed()
    &&& forall|i: int, j: int, b: u8|
        0 <= i < arms.len() && 0 <= j < arms.len() && #[trigger] arms[i].covers(b)
            && #[trigger] arms[j].covers(b) ==> i == j
}

/// `a` is what a lexer for `tokens` accepts on exactly `w`: the smallest kind
/// of the tokens that match `w`.
pub open spec fn lexes(tokens: Seq<TokenInfo>, w: Seq<u8>, a: Option<u16>) -> bool {
    match a {
        None => forall|k: u16| !#[trigger] nfa::token_matches(tokens, w, k),
        Some(k) => nfa::token_matches(tokens, w, k) && forall|j: u16| #[trigger]
            nfa::token_matches(tokens, w, j) ==> k <= j,
    }
}

/// Optional passes over the lexer automaton. Turning one off does not change
/// what is lexed.
#[derive(Clone, Copy, Debug, PartialEq, Eq, Structural)]
pub struct DfaOpts {
    /// Merge states that behave alike.
    pub minimize: bool,
}

impl Default for DfaOpts {
    fn default() -> (r: Self)
        ensures
            r == (DfaOpts { minimize: true }),
    {
        DfaOpts { minimize: true }
    }
}

/// Some string tells two states apart: after it one is stuck and the other is
/// not, or they accept differently.
pub open spec fn distinguishable(dfa: Seq<DfaState>, a: u32, b: u32) -> bool {
    exists|w: Seq<u8>| #[trigger] seen(dfa, a, w) != seen(dfa, b, w)
}

/// What is seen of the state after reading `w`: none, or what it accepts.
pub open spec fn seen(dfa: Seq<DfaState>, id: u32, w: Seq<u8>) -> Option<Option<u16>> {
    let t = run(dfa, id, w);
    if t == DEAD {
        None
    } else {
        Some(dfa[t - 1].accept)
    }
}

/// Some string leads from the start to the state.
pub open spec fn found(dfa: Seq<DfaState>, id: u32) -> bool {
    exists|w: Seq<u8>| #[trigger] run(dfa, START, w) == id
}

/// What the bytes below `upto` contributed to the arms of one state.
spec fn arms_upto(rows: Seq<Row>, table: Seq<usize>, upto: int, arms: Seq<ByteArm>) -> bool {
    &&& forall|i: int, j: int|
        0 <= i < j < arms.len() ==> (#[trigger] arms[i]).target < (#[trigger] arms[j]).target
    &&& forall|i: int|
        0 <= i < arms.len() ==> 0 < (#[trigger] arms[i]).target <= rows.len()
            && arms[i].target_accept == rows[arms[i].target - 1].accept && arms[i].packed()
    &&& forall|i: int, j: int|
        0 <= i < arms.len() && 0 <= j < arms[i].ranges@.len() ==> (
        #[trigger] arms[i].ranges@[j]).1 < upto
    &&& forall|i: int, b: u8|
        0 <= i < arms.len() && #[trigger] arms[i].covers(b) ==> table[b as int] == arms[i].target
    &&& forall|b: u8|
        b < upto && #[trigger] table[b as int] != 0 ==> exists|i: int|
            0 <= i < arms.len() && (#[trigger] arms[i]).covers(b)
}

/// Adds the run `lo..=hi` of bytes that lead to `target`.
fn add_run(rows: &Vec<Row>, table: &Vec<usize>, arms: &mut Vec<ByteArm>, lo: u8, hi: u8, target: u32)
    requires
        arms_upto(rows@, table@, lo as int, old(arms)@),
        table@.len() == 256,
        lo <= hi,
        0 < target <= rows@.len(),
        forall|b: int| lo <= b <= hi ==> #[trigger] table@[b] == target,
        lo > 0 ==> table@[lo - 1] != target,
    ensures
        arms_upto(rows@, table@, hi + 1, final(arms)@),
{
    let ghost before = arms@;
    let mut at: usize = 0;
    while at < arms.len() && arms[at].target < target
        invariant
            at <= arms@.len(),
            arms@ == before,
            forall|k: int| 0 <= k < at ==> (#[trigger] arms@[k]).target < target,
        decreases arms@.len() - at,
    {
        at += 1;
    }
    if at < arms.len() && arms[at].target == target {
        let ghost r0 = before[at as int].ranges@;
        arms[at].ranges.push((lo, hi));
        proof {
            let after = arms@;
            let a = at as int;
            assert(after[a].ranges@ == r0.push((lo, hi)));
            assert forall|j: int| 0 <= j < r0.len() implies (#[trigger] r0[j]).1 + 1 < lo by {
                assert(before[a].ranges@[j].1 < lo);
                if r0[j].1 + 1 == lo {
                    let x = r0[j].1;
                    assert(r0[j].0 <= x);
                    assert(before[a].covers(x));
                    assert(table@[x as int] == target);
                }
            }
            assert(after[a].packed()) by {
                assert forall|j: int, k: int| 0 <= j < k < after[a].ranges@.len() implies (
                #[trigger] after[a].ranges@[j]).1 + 1 < (#[trigger] after[a].ranges@[k]).0 by {
                    if k < r0.len() {
                        assert(r0[j].1 + 1 < r0[k].0);
                    }
                }
                assert forall|j: int| 0 <= j < after[a].ranges@.len() implies (
                #[trigger] after[a].ranges@[j]).0 <= after[a].ranges@[j].1 by {
                    if j < r0.len() {
                        assert(r0[j].0 <= r0[j].1);
                    }
                }
            }
            assert forall|b: u8| #[trigger] after[a].covers(b) <==> before[a].covers(b) || lo <= b
                <= hi by {
                if before[a].covers(b) {
                    let j = choose|j: int| 0 <= j < r0.len() && (#[trigger] r0[j]).0 <= b
                        <= r0[j].1;
                    assert(after[a].ranges@[j] == r0[j]);
                }
                if lo <= b <= hi {
                    assert(after[a].ranges@[r0.len() as int] == (lo, hi));
                }
                if after[a].covers(b) {
                    let j = choose|j: int|
                        0 <= j < after[a].ranges@.len() && (#[trigger] after[a].ranges@[j]).0 <= b
                            <= after[a].ranges@[j].1;
                    if j < r0.len() {
                        assert(r0[j].0 <= b <= r0[j].1);
                    }
                }
            }
            assert forall|i: int, b: u8|
                0 <= i < after.len() && #[trigger] after[i].covers(b) implies table@[b as int]
                == after[i].target by {
                if i == a {
                    if before[a].covers(b) {
                    }
                } else {
                    assert(before[i].covers(b));
                }
            }
            assert forall|b: u8| b < hi + 1 && #[trigger] table@[b as int] != 0 implies exists|i: int|
                0 <= i < after.len() && (#[trigger] after[i]).covers(b) by {
                if b < lo {
                    let i = choose|i: int| 0 <= i < before.len() && (#[trigger] before[i]).covers(b);
                    if i == a {
                        assert(after[a].covers(b));
                    } else {
                        assert(after[i].covers(b));
                    }
                } else {
                    assert(after[a].covers(b));
                }
            }
            assert forall|i: int, j: int|
                0 <= i < after.len() && 0 <= j < after[i].ranges@.len() implies (
            #[trigger] after[i].ranges@[j]).1 < hi + 1 by {
                if i == a && j == r0.len() {
                } else {
                    assert(before[i].ranges@[j].1 < lo);
                }
            }
        }
    } else {
        let mut ranges: Vec<(u8, u8)> = Vec::new();
        ranges.push((lo, hi));
        let arm = ByteArm {
            target,
            target_accept: rows[(target - 1) as usize].accept,
            ranges,
        };
        let ghost av = arm;
        arms.insert(at, arm);
        proof {
            let after = arms@;
            let a = at as int;
            assert(after[a] == av);
            assert forall|i: int| 0 <= i < after.len() implies #[trigger] after[i] == (if i < a {
                before[i]
            } else if i == a {
                av
            } else {
                before[i - 1]
            }) by {}
            assert forall|b: u8| #[trigger] av.covers(b) <==> lo <= b <= hi by {
                if lo <= b <= hi {
                    assert(av.ranges@[0] == (lo, hi));
                }
            }
            assert(av.packed());
            assert forall|i: int, j: int| 0 <= i < j < after.len() implies (
            #[trigger] after[i]).target < (#[trigger] after[j]).target by {
                if j > a {
                    assert(before[a].target <= before[j - 1].target);
                }
                if i > a {
                    assert(before[i - 1].target < before[j - 1].target);
                }
            }
            assert forall|i: int, j: int|
                0 <= i < after.len() && 0 <= j < after[i].ranges@.len() implies (
            #[trigger] after[i].ranges@[j]).1 < hi + 1 by {
                if i < a {
                    assert(before[i].ranges@[j].1 < lo);
                } else if i > a {
                    assert(before[i - 1].ranges@[j].1 < lo);
                }
            }
            assert forall|i: int, b: u8|
                0 <= i < after.len() && #[trigger] after[i].covers(b) implies table@[b as int]
                == after[i].target by {
                if i < a {
                    assert(before[i].covers(b));
                } else if i > a {
                    assert(before[i - 1].covers(b));
                }
            }
            assert forall|b: u8| b < hi + 1 && #[trigger] table@[b as int] != 0 implies exists|i: int|
                0 <= i < after.len() && (#[trigger] after[i]).covers(b) by {
                if b < lo {
                    let i = choose|i: int| 0 <= i < before.len() && (#[trigger] before[i]).covers(b);
                    if i < a {
                        assert(after[i].covers(b));
                    } else {
                        assert(after[i + 1].covers(b));
                    }
                } else {
                    assert(after[a].covers(b));
                }
            }
        }
    }
}

/// The arms of one state.
fn group_arms(rows: &Vec<Row>, table: &Vec<usize>) -> (arms: Vec<ByteArm>)
    requires
        rows@.len() <= MAX_STATES,
        table@.len() == 256,
        forall|b: int| 0 <= b < 256 ==> #[trigger] table@[b] <= rows@.len(),
    ensures
        arms_upto(rows@, table@, 256, arms@),
{
    let mut arms: Vec<ByteArm> = Vec::new();
    let mut b: usize = 0;
    while b < 256
        invariant
            b <= 256,
            rows@.len() <= MAX_STATES,
            table@.len() == 256,
            forall|k: int| 0 <= k < 256 ==> #[trigger] table@[k] <= rows@.len(),
            arms_upto(rows@, table@, b as int, arms@),
            0 < b < 256 ==> table@[b - 1] != table@[b as int],
        decreases 256 - b,
    {
        let target = table[b];
        let mut hi: usize = b;
        while hi + 1 < 256 && table[hi + 1] == target
            invariant
                b <= hi < 256,
                table@.len() == 256,
                forall|k: int| b <= k <= hi ==> #[trigger] table@[k] == target,
            decreases 256 - hi,
        {
            hi += 1;
        }
        if target != 0 {
            add_run(rows, table, &mut arms, b as u8, hi as u8, target as u32);
        } else {
            proof {
                assert forall|i: int, j: int|
                    0 <= i < arms@.len() && 0 <= j < arms@[i].ranges@.len() implies (
                #[trigger] arms@[i].ranges@[j]).1 < hi + 1 by {
                    assert(arms@[i].ranges@[j].1 < b);
                }
            }
        }
        b = hi + 1;
    }
    arms
}

/// Turns table rows into states.
pub(crate) fn finish(rows: &Vec<Row>) -> (dfa: Vec<DfaState>)
    requires
        subset::rows_ok(rows@),
        rows@.len() <= MAX_STATES,
    ensures
        well_formed(dfa@),
        dfa@.len() == rows@.len(),
        forall|id: u32, w: Seq<u8>|
            id <= rows@.len() ==> #[trigger] seen(dfa@, id, w) == subset::outcome(
                rows@,
                id as int,
                w,
            ),
        forall|w: Seq<u8>| #[trigger] run(dfa@, START, w) == subset::run_rows(rows@, 1, w),
        holds_rows(dfa@, rows@),
{
    let mut dfa: Vec<DfaState> = Vec::new();
    let mut i: usize = 0;
    while i < rows.len()
        invariant
            i <= rows@.len(),
            subset::rows_ok(rows@),
            rows@.len() <= MAX_STATES,
            dfa@.len() == i,
            forall|k: int| 0 <= k < i ==> (#[trigger] dfa@[k]).id == k + 1,
            forall|k: int| 0 <= k < i ==> (#[trigger] dfa@[k]).accept == rows@[k].accept,
            forall|k: int|
                0 <= k < i ==> arms_upto(rows@, rows@[k].table@, 256, (#[trigger] dfa@[k]).arms@),
        decreases rows@.len() - i,
    {
        assert forall|b: int| 0 <= b < 256 implies #[trigger] rows@[i as int].table@[b]
            <= rows@.len() by {}
        let arms = group_arms(rows, &rows[i].table);
        dfa.push(DfaState { id: (i + 1) as u32, arms, accept: rows[i].accept });
        i += 1;
    }
    proof {
        assert forall|k: int| 0 <= k < dfa@.len() implies arms_ok(
            dfa@,
            (#[trigger] dfa@[k]).arms@,
        ) by {
            let arms = dfa@[k].arms@;
            assert(arms_upto(rows@, rows@[k].table@, 256, arms));
            assert forall|a: int, c: int, b: u8|
                0 <= a < arms.len() && 0 <= c < arms.len() && #[trigger] arms[a].covers(b)
                    && #[trigger] arms[c].covers(b) implies a == c by {
                if a < c {
                    assert(arms[a].target < arms[c].target);
                } else if c < a {
                    assert(arms[c].target < arms[a].target);
                }
            }
        }
        assert forall|id: u32, w: Seq<u8>| id <= rows@.len() implies #[trigger] seen(dfa@, id, w)
            == subset::outcome(rows@, id as int, w) by {
            lemma_finish_run(rows@, dfa@, id, w);
        }
        assert forall|w: Seq<u8>| #[trigger] run(dfa@, START, w) == subset::run_rows(
            rows@,
            1,
            w,
        ) by {
            lemma_finish_run(rows@, dfa@, START, w);
        }
        assert forall|k: int, b: u8| 0 <= k < rows@.len() implies #[trigger] dfa@[k].next(b)
            == rows@[k].table@[b as int] by {
            assert(arms_upto(rows@, rows@[k].table@, 256, dfa@[k].arms@));
            lemma_next(rows@, rows@[k].table@, dfa@[k], b);
        }
    }
    dfa
}

/// Where a state goes on a byte is what its row says.
proof fn lemma_next(rows: Seq<Row>, table: Seq<usize>, s: DfaState, b: u8)
    requires
        arms_upto(rows, table, 256, s.arms@),
    ensures
        s.next(b) == table[b as int],
{
    let arms = s.arms@;
    let t = table[b as int];
    if exists|i: int| 0 <= i < arms.len() && (#[trigger] arms[i]).covers(b) {
        let i = choose|i: int| 0 <= i < arms.len() && (#[trigger] arms[i]).covers(b);
        assert(arms[i].covers(b));
    } else {
        if t != 0 {
            assert(table[b as int] != 0);
        }
    }
}

proof fn lemma_finish_run(rows: Seq<Row>, dfa: Seq<DfaState>, id: u32, w: Seq<u8>)
    requires
        subset::rows_ok(rows),
        rows.len() <= MAX_STATES,
        dfa.len() == rows.len(),
        forall|k: int| 0 <= k < rows.len() ==> (#[trigger] dfa[k]).accept == rows[k].accept,
        forall|k: int|
            0 <= k < rows.len() ==> arms_upto(rows, rows[k].table@, 256, (#[trigger] dfa[k]).arms@),
        id <= rows.len(),
    ensures
        run(dfa, id, w) == subset::run_rows(rows, id as int, w),
        run(dfa, id, w) <= rows.len(),
    decreases w.len(),
{
    if id != DEAD && w.len() > 0 {
        let k = id - 1;
        let b = w[0];
        let arms = dfa[k].arms@;
        let t = rows[k].table@[b as int];
        assert(arms_upto(rows, rows[k].table@, 256, arms));
        assert(t <= rows.len());
        lemma_next(rows, rows[k].table@, dfa[k], b);
        lemma_finish_run(rows, dfa, t as u32, w.skip(1));
    }
}

/// Some string tells the two apart: behind the one it makes another token, or
/// none, than behind the other.
pub open spec fn apart(tokens: Seq<TokenInfo>, u: Seq<u8>, v: Seq<u8>) -> bool {
    exists|z: Seq<u8>, a: Option<u16>, b: Option<u16>|
        #![trigger lexes(tokens, u + z, a), lexes(tokens, v + z, b)]
        lexes(tokens, u + z, a) && lexes(tokens, v + z, b) && a != b
}

/// Any two of the strings can be told apart.
pub open spec fn all_apart(tokens: Seq<TokenInfo>, ws: Seq<Seq<u8>>) -> bool {
    forall|i: int, j: int|
        #![trigger ws[i], ws[j]]
        0 <= i < j < ws.len() ==> apart(tokens, ws[i], ws[j])
}

/// No automaton with 32-bit state ids lexes the tokens: there are more strings
/// that can all be told apart than there are ids.
pub open spec fn crowded(tokens: Seq<TokenInfo>) -> bool {
    exists|ws: Seq<Seq<u8>>| #[trigger] all_apart(tokens, ws) && ws.len() > MAX_STATES
}

/// From the state some string leads to a state that accepts.
pub open spec fn comes_to_accept(dfa: Seq<DfaState>, id: u32) -> bool {
    exists|w: Seq<u8>| (#[trigger] seen(dfa, id, w)) matches Some(Some(_))
}

/// The automaton lexes the tokens. After any string it accepts the smallest
/// kind of the tokens that match the string; every state can be reached; from
/// each but the start an accepting state can be reached; with `minimal` any
/// two states can be told apart.
pub open spec fn lexes_all(dfa: Seq<DfaState>, tokens: Seq<TokenInfo>, minimal: bool) -> bool {
    &&& forall|w: Seq<u8>| #[trigger] lexes(tokens, w, accepted(dfa, w))
    &&& forall|i: int| 0 <= i < dfa.len() ==> found(dfa, (#[trigger] dfa[i]).id)
    &&& forall|i: int| 0 < i < dfa.len() ==> comes_to_accept(dfa, (#[trigger] dfa[i]).id)
    &&& minimal ==> forall|i: int, j: int|
        #![trigger dfa[i], dfa[j]]
        0 <= i < j < dfa.len() ==> distinguishable(dfa, dfa[i].id, dfa[j].id)
}

/// The states are the rows, in order.
pub open spec fn holds_rows(dfa: Seq<DfaState>, rows: Seq<Row>) -> bool {
    &&& dfa.len() == rows.len()
    &&& forall|k: int| 0 <= k < rows.len() ==> (#[trigger] dfa[k]).accept == rows[k].accept
    &&& forall|k: int, b: u8|
        0 <= k < rows.len() ==> #[trigger] dfa[k].next(b) == rows[k].table@[b as int]
}

/// The rows lex the tokens and are numbered in the order in which they are met.
/// The states are these rows; where states that behave alike are merged, they
/// are the classes, that of the first state first and the others in the order in
/// which the rounds of splitting put them.
pub open spec fn numbered_from(
    dfa: Seq<DfaState>,
    tokens: Seq<TokenInfo>,
    minimal: bool,
    rows: Seq<Row>,
) -> bool {
    &&& subset::rows_ok(rows)
    &&& subset::numbered_as_met(rows)
    &&& forall|w: Seq<u8>| #[trigger]
        lexes(tokens, w, subset::kind_of(subset::outcome(rows, 1, w)))
    &&& if minimal || rows.len() > MAX_STATES {
        exists|n: nat, cls: Seq<usize>, out: Seq<Row>| #[trigger]
            minimize::refined(rows, n, cls) && minimize::stable(rows, cls)
                && #[trigger] minimize::merged(rows, cls, out) && holds_rows(dfa, out)
    } else {
        holds_rows(dfa, rows)
    }
}

/// The automaton is what the tokens are compiled to. It accepts nothing but the
/// kinds of tokens that match; tokens that are not too many are all lexed (see
/// [`lexes_all`]), and the states have their numbers (see [`numbered_from`]).
pub open spec fn is_compiled(dfa: Seq<DfaState>, tokens: Seq<TokenInfo>, opts: DfaOpts) -> bool {
    &&& well_formed(dfa)
    &&& forall|w: Seq<u8>, k: u16|
        #[trigger] accepted(dfa, w) == Some(k) ==> #[trigger] nfa::token_matches(tokens, w, k)
    &&& !crowded(tokens) ==> lexes_all(dfa, tokens, opts.minimize)
    &&& !crowded(tokens) ==> exists|rows: Seq<Row>| #[trigger]
        numbered_from(dfa, tokens, opts.minimize, rows)
}

/// Compile tokens to a lexer automaton with every pass turned on: what
/// [`compile_with_opts`] gives with the default options.
pub fn compile(tokens: &Vec<TokenInfo>) -> (dfa: Vec<DfaState>)
    requires
        nfa::tokens_compilable(tokens@),
    ensures
        is_compiled(dfa@, tokens@, DfaOpts { minimize: true }),
{
    compile_with_opts(tokens, DfaOpts::default())
}

/// Read on from `w`, some string is accepted.
spec fn reads_on(rows: Seq<Row>, w: Seq<u8>) -> bool {
    exists|z: Seq<u8>| (#[trigger] subset::outcome(rows, 1, w + z)) matches Some(Some(_))
}

/// The rows are those of an automaton that lexes the tokens: what is accepted
/// is what the tokens say, every state is reached, and what can be read can be
/// read on to something that is accepted.
spec fn rows_lex(rows: Seq<Row>, tokens: Seq<TokenInfo>) -> bool {
    &&& subset::rows_ok(rows)
    &&& forall|w: Seq<u8>| #[trigger]
        lexes(tokens, w, subset::kind_of(subset::outcome(rows, 1, w)))
    &&& forall|k: int| 1 <= k <= rows.len() ==> #[trigger] subset::reached(rows, k)
    &&& forall|w: Seq<u8>|
        w.len() > 0 && (#[trigger] subset::outcome(rows, 1, w)) is Some ==> reads_on(rows, w)
}

/// Strings that come to different states of which no two behave alike can be
/// told apart.
proof fn lemma_rows_apart(
    tokens: Seq<TokenInfo>,
    rows: Seq<Row>,
    i: int,
    j: int,
    u: Seq<u8>,
    v: Seq<u8>,
)
    requires
        rows_lex(rows, tokens),
        0 <= i < rows.len(),
        0 <= j < rows.len(),
        subset::run_rows(rows, 1, u) == i + 1,
        subset::run_rows(rows, 1, v) == j + 1,
        minimize::differ(rows, i, j),
    ensures
        apart(tokens, u, v),
{
    let x = choose|x: Seq<u8>| #[trigger]
        subset::outcome(rows, i + 1, x) != subset::outcome(rows, j + 1, x);
    subset::lemma_run_joined(rows, 1, u, x);
    subset::lemma_run_joined(rows, 1, v, x);
    let a = subset::outcome(rows, 1, u + x);
    let b = subset::outcome(rows, 1, v + x);
    if subset::kind_of(a) != subset::kind_of(b) {
        assert(lexes(tokens, u + x, subset::kind_of(a)));
        assert(lexes(tokens, v + x, subset::kind_of(b)));
    } else if a is Some {
        lemma_dead_apart(tokens, rows, u, v, x);
    } else {
        lemma_dead_apart(tokens, rows, v, u, x);
        let (z, p, q) = choose|z: Seq<u8>, p: Option<u16>, q: Option<u16>|
            #![trigger lexes(tokens, v + z, p), lexes(tokens, u + z, q)]
            lexes(tokens, v + z, p) && lexes(tokens, u + z, q) && p != q;
        assert(lexes(tokens, u + z, q) && lexes(tokens, v + z, p));
    }
}

/// Strings of which one can be read on past `x` and the other cannot can be
/// told apart.
#[verifier::rlimit(60)]
proof fn lemma_dead_apart(
    tokens: Seq<TokenInfo>,
    rows: Seq<Row>,
    u: Seq<u8>,
    v: Seq<u8>,
    x: Seq<u8>,
)
    requires
        rows_lex(rows, tokens),
        subset::run_rows(rows, 1, v) > 0,
        subset::outcome(rows, 1, u + x) is Some,
        subset::outcome(rows, 1, v + x) is None,
    ensures
        apart(tokens, u, v),
{
    if x.len() == 0 {
        assert(v + x =~= v);
    }
    assert((u + x).len() > 0);
    assert(reads_on(rows, u + x));
    let z = choose|z: Seq<u8>| (#[trigger] subset::outcome(rows, 1, u + x + z)) matches Some(
        Some(_),
    );
    subset::lemma_run_joined(rows, 1, v + x, z);
    let y = x + z;
    assert(u + x + z =~= u + y);
    assert(v + x + z =~= v + y);
    let a = subset::kind_of(subset::outcome(rows, 1, u + y));
    let b = subset::kind_of(subset::outcome(rows, 1, v + y));
    assert(lexes(tokens, u + y, a) && lexes(tokens, v + y, b) && a != b);
}

/// Tokens whose automaton has no two states that behave alike, and more of
/// them than there are ids, are crowded.
proof fn lemma_crowded(tokens: Seq<TokenInfo>, rows: Seq<Row>)
    requires
        rows_lex(rows, tokens),
        rows.len() > MAX_STATES,
        forall|i: int, j: int| 0 <= i < j < rows.len() ==> #[trigger] minimize::differ(rows, i, j),
    ensures
        crowded(tokens),
{
    let ws = Seq::new(rows.len(), |i: int| leading(rows, i));
    assert forall|i: int, j: int|
        #![trigger ws[i], ws[j]]
        0 <= i < j < ws.len() implies apart(tokens, ws[i], ws[j]) by {
        assert(subset::reached(rows, i + 1) && subset::reached(rows, j + 1));
        assert(minimize::differ(rows, i, j));
        lemma_rows_apart(tokens, rows, i, j, ws[i], ws[j]);
    }
    assert(all_apart(tokens, ws));
}

/// A string that leads to the state of index `i`.
spec fn leading(rows: Seq<Row>, i: int) -> Seq<u8> {
    choose|w: Seq<u8>| #[trigger] subset::run_rows(rows, 1, w) == i + 1
}

/// What the deterministic automaton of a trimmed one lexes.
proof fn lemma_rows_lex(tokens: Seq<TokenInfo>, nfa: Nfa, rows: Seq<Row>, out: Seq<Row>)
    requires
        forall|w: Seq<u8>, k: u16| #[trigger]
            nfa::accepts(nfa, w, k) <==> nfa::token_matches(tokens, w, k),
        trim::trimmed(nfa),
        forall|w: Seq<u8>| #[trigger]
            subset::run_rows(rows, 1, w) == 0 <==> forall|q: int| !#[trigger] subset::led_to(
                nfa,
                w,
                q,
            ),
        forall|w: Seq<u8>| #[trigger]
            subset::best_on(nfa, w, subset::kind_of(subset::outcome(rows, 1, w))),
        forall|w: Seq<u8>| #[trigger] subset::outcome(out, 1, w) == subset::outcome(rows, 1, w),
        subset::rows_ok(out),
        forall|k: int| 1 <= k <= out.len() ==> #[trigger] subset::reached(out, k),
    ensures
        rows_lex(out, tokens),
{
    assert forall|w: Seq<u8>| #[trigger]
        lexes(tokens, w, subset::kind_of(subset::outcome(out, 1, w))) by {
        let a = subset::kind_of(subset::outcome(out, 1, w));
        assert(subset::outcome(out, 1, w) == subset::outcome(rows, 1, w));
        assert(subset::best_on(nfa, w, a));
        assert forall|k: u16| #[trigger] nfa::token_matches(tokens, w, k) == nfa::accepts(
            nfa,
            w,
            k,
        ) by {}
        match a {
            None => {},
            Some(k) => {
                assert(nfa::accepts(nfa, w, k));
                assert forall|j: u16| #[trigger] nfa::token_matches(tokens, w, j) implies k
                    <= j by {
                    assert(nfa::accepts(nfa, w, j));
                }
            },
        }
    }
    assert forall|w: Seq<u8>|
        w.len() > 0 && (#[trigger] subset::outcome(out, 1, w)) is Some implies reads_on(out, w) by {
        assert(subset::outcome(rows, 1, w) is Some);
        assert(subset::run_rows(rows, 1, w) != 0);
        let q = choose|q: int| #[trigger] subset::led_to(nfa, w, q);
        assert(trim::goes_on(nfa, w));
        let (z, k) = choose|z: Seq<u8>, k: u16| #[trigger] nfa::accepts(nfa, w + z, k);
        let a = subset::kind_of(subset::outcome(rows, 1, w + z));
        assert(subset::best_on(nfa, w + z, a));
        assert(a is Some);
        assert(subset::outcome(out, 1, w + z) == subset::outcome(rows, 1, w + z));
    }
}

/// Compile tokens to a lexer automaton.
///
/// What it accepts is the smallest kind of the tokens that match; see
/// [`lexes_all`]. With `opts.minimize` no two states behave alike. Tokens that
/// no automaton with 32-bit state ids lexes (see [`crowded`]) are given one
/// that accepts nothing.
pub fn compile_with_opts(tokens: &Vec<TokenInfo>, opts: DfaOpts) -> (dfa: Vec<DfaState>)
    requires
        nfa::tokens_compilable(tokens@),
    ensures
        is_compiled(dfa@, tokens@, opts),
{
    let nfa = trim::trim(nfa::build_nfa(tokens));
    let rows = subset::subset_construct(&nfa);
    let ghost rows0 = rows@;
    let out = if opts.minimize || rows.len() > MAX_STATES {
        minimize::minimize(rows)
    } else {
        rows
    };
    proof {
        assert forall|k: int| 1 <= k <= out@.len() implies #[trigger] subset::reached(out@, k) by {
            if out@ == rows0 {
                subset::lemma_met_is_reached(rows0, k);
            }
        }
        assert forall|w: Seq<u8>, k: u16| #[trigger]
            nfa::accepts(nfa, w, k) <==> nfa::token_matches(tokens@, w, k) by {}
        lemma_rows_lex(tokens@, nfa, rows0, out@);
    }
    if out.len() > MAX_STATES {
        proof {
            lemma_crowded(tokens@, out@);
        }
        let mut none: Vec<DfaState> = Vec::new();
        none.push(DfaState { id: START, arms: Vec::new(), accept: None });
        assert forall|w: Seq<u8>| #[trigger] accepted(none@, w) is None by {
            if w.len() > 0 {
                assert(none@[0].next(w[0]) == DEAD);
                reveal_with_fuel(run, 2);
                assert(run(none@, START, w) == DEAD);
            }
        }
        return none;
    }
    let dfa = finish(&out);
    proof {
        assert forall|i: int| 0 <= i < dfa@.len() implies found(dfa@, (#[trigger] dfa@[i]).id) by {
            assert(subset::reached(out@, i + 1));
            let w = choose|w: Seq<u8>| #[trigger] subset::run_rows(out@, 1, w) == i + 1;
            assert(run(dfa@, START, w) == dfa@[i].id);
        }
        assert forall|w: Seq<u8>| #[trigger] lexes(tokens@, w, accepted(dfa@, w)) by {
            assert(seen(dfa@, 1, w) == subset::outcome(out@, 1, w));
            assert(accepted(dfa@, w) == subset::kind_of(seen(dfa@, 1, w)));
        }
        assert forall|w: Seq<u8>, k: u16| #[trigger]
            accepted(dfa@, w) == Some(k) implies #[trigger] nfa::token_matches(tokens@, w, k) by {
            assert(lexes(tokens@, w, accepted(dfa@, w)));
        }
        assert forall|i: int| 0 < i < dfa@.len() implies comes_to_accept(
            dfa@,
            (#[trigger] dfa@[i]).id,
        ) by {
            assert(subset::reached(out@, i + 1));
            let w = choose|w: Seq<u8>| #[trigger] subset::run_rows(out@, 1, w) == i + 1;
            assert(subset::outcome(out@, 1, w) is Some);
            assert(reads_on(out@, w));
            let z = choose|z: Seq<u8>| (#[trigger] subset::outcome(out@, 1, w + z)) matches Some(
                Some(_),
            );
            subset::lemma_run_joined(out@, 1, w, z);
            assert(seen(dfa@, dfa@[i].id, z) == subset::outcome(out@, i + 1, z));
        }
        if opts.minimize {
            assert forall|i: int, j: int|
                #![trigger dfa@[i], dfa@[j]]
                0 <= i < j < dfa@.len() implies distinguishable(
                dfa@,
                dfa@[i].id,
                dfa@[j].id,
            ) by {
                assert(minimize::differ(out@, i, j));
                let w = choose|w: Seq<u8>| #[trigger]
                    subset::outcome(out@, i + 1, w) != subset::outcome(out@, j + 1, w);
                assert(seen(dfa@, dfa@[i].id, w) == subset::outcome(out@, i + 1, w));
                assert(seen(dfa@, dfa@[j].id, w) == subset::outcome(out@, j + 1, w));
            }
        }
    }
    proof {
        assert forall|w: Seq<u8>| #[trigger]
            lexes(tokens@, w, subset::kind_of(subset::outcome(rows0, 1, w))) by {
            assert(lexes(tokens@, w, subset::kind_of(subset::outcome(out@, 1, w))));
        }
        assert(numbered_from(dfa@, tokens@, opts.minimize, rows0));
    }
    dfa
}

/// Reading goes on from the state come to.
pub proof fn lemma_run_on(dfa: Seq<DfaState>, id: u32, u: Seq<u8>, v: Seq<u8>)
    ensures
        run(dfa, id, u + v) == run(dfa, run(dfa, id, u), v),
    decreases u.len(),
{
    if u.len() == 0 || id == DEAD {
        assert(u.len() == 0 ==> u + v =~= v);
    } else {
        assert((u + v).skip(1) =~= u.skip(1) + v);
        lemma_run_on(dfa, dfa[id - 1].next(u[0]), u.skip(1), v);
    }
}

/// A string that leads to the state.
spec fn way_to(dfa: Seq<DfaState>, id: u32) -> Seq<u8> {
    if id == START {
        Seq::empty()
    } else {
        choose|w: Seq<u8>| #[trigger] run(dfa, START, w) == id
    }
}

/// Behind strings that lead to different states of a minimal automaton, some
/// string is accepted differently.
proof fn lemma_ways_apart(dfa: Seq<DfaState>, tokens: Seq<TokenInfo>, i: int, j: int) -> (z: Seq<u8>)
    requires
        well_formed(dfa),
        lexes_all(dfa, tokens, true),
        0 <= i < dfa.len(),
        0 <= j < dfa.len(),
        i != j,
    ensures
        accepted(dfa, way_to(dfa, dfa[i].id) + z) != accepted(dfa, way_to(dfa, dfa[j].id) + z),
{
    let (a, b) = (dfa[i].id, dfa[j].id);
    let (u, v) = (way_to(dfa, a), way_to(dfa, b));
    assert(found(dfa, a) && found(dfa, b));
    assert(distinguishable(dfa, a, b)) by {
        if j < i {
            assert(distinguishable(dfa, b, a));
            let x = choose|x: Seq<u8>| #[trigger] seen(dfa, b, x) != seen(dfa, a, x);
            assert(seen(dfa, a, x) != seen(dfa, b, x));
        }
    }
    let x = choose|x: Seq<u8>| #[trigger] seen(dfa, a, x) != seen(dfa, b, x);
    lemma_run_on(dfa, START, u, x);
    lemma_run_on(dfa, START, v, x);
    assert(run(dfa, START, u) == a && run(dfa, START, v) == b);
    if accepted(dfa, u + x) != accepted(dfa, v + x) {
        x
    } else if seen(dfa, a, x) is Some {
        lemma_stuck_apart(dfa, tokens, u, v, x)
    } else {
        lemma_stuck_apart(dfa, tokens, v, u, x)
    }
}

/// Behind strings of which one can be read on past `x` and the other cannot,
/// some string is accepted differently.
proof fn lemma_stuck_apart(
    dfa: Seq<DfaState>,
    tokens: Seq<TokenInfo>,
    u: Seq<u8>,
    v: Seq<u8>,
    x: Seq<u8>,
) -> (z: Seq<u8>)
    requires
        well_formed(dfa),
        lexes_all(dfa, tokens, true),
        run(dfa, START, v) != DEAD,
        run(dfa, START, u) != run(dfa, START, v),
        run(dfa, START, u + x) != DEAD,
        run(dfa, START, v + x) == DEAD,
    ensures
        accepted(dfa, u + z) != accepted(dfa, v + z),
{
    lemma_run_on(dfa, START, u, x);
    if run(dfa, START, u + x) == run(dfa, START, v) {
        assert(run(dfa, START, u) != DEAD);
        lemma_goes_on(dfa, tokens, u + x, u);
    } else {
        lemma_goes_on(dfa, tokens, u + x, v);
    }
    let z = choose|z: Seq<u8>| (#[trigger] accepted(dfa, u + x + z)) is Some;
    lemma_run_on(dfa, START, v + x, z);
    assert(u + x + z =~= u + (x + z));
    assert(v + x + z =~= v + (x + z));
    x + z
}

/// Where two strings lead to different states, each can be read on to something
/// that is accepted.
proof fn lemma_goes_on(dfa: Seq<DfaState>, tokens: Seq<TokenInfo>, w: Seq<u8>, v: Seq<u8>)
    requires
        well_formed(dfa),
        lexes_all(dfa, tokens, true),
        run(dfa, START, w) != DEAD,
        run(dfa, START, v) != DEAD,
        run(dfa, START, v) != run(dfa, START, w),
    ensures
        exists|z: Seq<u8>| (#[trigger] accepted(dfa, w + z)) is Some,
{
    let id = run(dfa, START, w);
    lemma_run_within(dfa, START, w);
    assert(dfa[id - 1].id == id);
    if id != START {
        assert(comes_to_accept(dfa, id));
        let z = choose|z: Seq<u8>| (#[trigger] seen(dfa, id, z)) matches Some(Some(_));
        lemma_run_on(dfa, START, w, z);
        assert(accepted(dfa, w + z) is Some);
    } else {
        let other = run(dfa, START, v);
        lemma_run_within(dfa, START, v);
        assert(dfa[other - 1].id == other);
        assert(comes_to_accept(dfa, other));
        let z = choose|z: Seq<u8>| (#[trigger] seen(dfa, other, z)) matches Some(Some(_));
        lemma_run_on(dfa, START, v, z);
        lemma_run_on(dfa, START, w, v + z);
        assert(accepted(dfa, w + (v + z)) is Some);
    }
}

/// Reading stays within the states.
proof fn lemma_run_within(dfa: Seq<DfaState>, id: u32, w: Seq<u8>)
    requires
        well_formed(dfa),
        id <= dfa.len(),
    ensures
        run(dfa, id, w) <= dfa.len(),
    decreases w.len(),
{
    if id != DEAD && w.len() > 0 {
        let s = dfa[id - 1];
        assert(arms_ok(dfa, s.arms@));
        lemma_run_within(dfa, s.next(w[0]), w.skip(1));
    }
}

/// Distinct numbers below `m` are no more than `m`.
proof fn lemma_at_most(s: Seq<int>, m: nat)
    requires
        s.no_duplicates(),
        forall|i: int| 0 <= i < s.len() ==> 0 <= #[trigger] s[i] < m,
    ensures
        s.len() <= m,
{
    let all = vstd::set_lib::set_int_range(0, m as int);
    vstd::set_lib::lemma_int_range(0, m as int);
    s.unique_seq_to_set();
    assert forall|x: int| s.to_set().contains(x) implies all.contains(x) by {
        let i = choose|i: int| 0 <= i < s.len() && s[i] == x;
    }
    vstd::set_lib::lemma_len_subset(s.to_set(), all);
}

/// Merging the states that behave alike changes nothing of what is accepted,
/// and no automaton that lexes the same tokens has fewer states.
pub proof fn law_minimal_is_smallest(
    tokens: Seq<TokenInfo>,
    small: Seq<DfaState>,
    other: Seq<DfaState>,
)
    requires
        well_formed(small),
        lexes_all(small, tokens, true),
        well_formed(other),
        lexes_all(other, tokens, false),
    ensures
        forall|w: Seq<u8>| #[trigger] accepted(small, w) == accepted(other, w),
        small.len() <= other.len(),
{
    assert forall|w: Seq<u8>| #[trigger] accepted(small, w) == accepted(other, w) by {
        assert(lexes(tokens, w, accepted(small, w)));
        assert(lexes(tokens, w, accepted(other, w)));
    }
    let at = Seq::new(
        small.len(),
        |i: int| run(other, START, way_to(small, small[i].id)) as int - 1,
    );
    assert forall|i: int| 0 <= i < at.len() implies 0 <= #[trigger] at[i] < other.len() by {
        let w = way_to(small, small[i].id);
        assert(found(small, small[i].id));
        lemma_run_within(other, START, w);
        if run(other, START, w) == DEAD {
            if i > 0 {
                assert(comes_to_accept(small, small[i].id));
                let z = choose|z: Seq<u8>|
                    (#[trigger] seen(small, small[i].id, z)) matches Some(Some(_));
                lemma_run_on(small, START, w, z);
                lemma_run_on(other, START, w, z);
                assert(accepted(small, w + z) is Some);
                assert(accepted(other, w + z) is None);
            }
        }
    }
    assert(at.no_duplicates()) by {
        assert forall|i: int, j: int| 0 <= i < at.len() && 0 <= j < at.len() && i != j implies at[i]
            != at[j] by {
            let (u, v) = (way_to(small, small[i].id), way_to(small, small[j].id));
            let z = lemma_ways_apart(small, tokens, i, j);
            lemma_run_on(other, START, u, z);
            lemma_run_on(other, START, v, z);
            assert(accepted(small, u + z) == accepted(other, u + z));
            assert(accepted(small, v + z) == accepted(other, v + z));
        }
    }
    lemma_at_most(at, other.len());
}

} // verus!
