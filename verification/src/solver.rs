//! The search engine: a backtracking depth-first search over board
//! states.  It prunes by a total-budget lower bound and by a memo set of
//! positions already proven unsolvable, orders moves so that origins with
//! fewer options are tried first, and returns the first winning trail.
//!
//! `solo_chess_solver` is proved sound and complete against the rules
//! model: a non-empty result replays to a won position, and an empty
//! result on a non-terminal board means no winning sequence exists.

use std::collections::HashMap;

use vstd::prelude::*;
use vstd::seq_lib::*;

use crate::board::{budget_sum, grid_wf, has_king, on_board, piece_count, sq, Board, Grid};
use crate::generator::list_capture_pairs_into;
use crate::rules::{
    apply_step, goal, legal_capture, lemma_apply_step_stats, lemma_budget_prune,
    lemma_children_decide, lemma_extend_trail, lemma_replay_stats, lemma_terminal, replay,
    solvable, trail_ok,
};
use crate::step::Step;

verus! {

broadcast use vstd::std_specs::hash::group_hash_axioms;

/// The row-major index of a move's origin square.
pub open spec fn origin_sq(s: Step) -> int {
    sq(s.from.0 as int, s.from.1 as int)
}

/// How many of the first `n` candidate moves start on square `o`.
pub open spec fn count_origin_to(ms: Seq<Step>, o: int, n: int) -> nat
    decreases n,
{
    if n <= 0 {
        0
    } else {
        count_origin_to(ms, o, n - 1) + if origin_sq(ms[n - 1]) == o {
            1nat
        } else {
            0nat
        }
    }
}

/// How many candidate moves start on square `o`.
pub open spec fn count_origin(ms: Seq<Step>, o: int) -> nat {
    count_origin_to(ms, o, ms.len() as int)
}

/// The move-ordering relation: moves whose origin offers fewer candidate
/// moves come first; ties go to the lower origin square index.
pub open spec fn heur_le(ms: Seq<Step>, a: Step, b: Step) -> bool {
    ||| count_origin(ms, origin_sq(a)) < count_origin(ms, origin_sq(b))
    ||| (count_origin(ms, origin_sq(a)) == count_origin(ms, origin_sq(b)) && origin_sq(a)
        <= origin_sq(b))
}

/// Swapping two distinct entries of a sequence keeps its multiset.
proof fn lemma_swap_multiset(s: Seq<Step>, i: int, j: int)
    requires
        0 <= i < s.len(),
        0 <= j < s.len(),
        i != j,
    ensures
        s.update(i, s[j]).update(j, s[i]).to_multiset() == s.to_multiset(),
{
    broadcast use vstd::seq_lib::group_to_multiset_ensures;
    broadcast use vstd::multiset::group_multiset_axioms;

    let s1 = s.update(i, s[j]);
    let t = s1.update(j, s[i]);
    assert(s1 =~= s.remove(i).insert(i, s[j]));
    vstd::seq_lib::to_multiset_remove(s, i);
    vstd::seq_lib::to_multiset_insert(s.remove(i), i, s[j]);
    assert(s1.to_multiset() == s.to_multiset().remove(s[i]).insert(s[j]));
    assert(t =~= s1.remove(j).insert(j, s[i]));
    vstd::seq_lib::to_multiset_remove(s1, j);
    vstd::seq_lib::to_multiset_insert(s1.remove(j), j, s[i]);
    assert(s1[j] == s[j]);
    assert(t.to_multiset() == s1.to_multiset().remove(s[j]).insert(s[i]));
    assert(s.to_multiset().count(s[i]) > 0) by {
        assert(s.contains(s[i]));
    }
    assert(t.to_multiset() =~= s.to_multiset());
}

/// Swapping two entries of a sequence keeps the same elements.
proof fn lemma_swap_same_elements(s: Seq<Step>, i: int, j: int)
    requires
        0 <= i < s.len(),
        0 <= j < s.len(),
    ensures
        forall|x: Step|
            #[trigger] s.update(i, s[j]).update(j, s[i]).contains(x) == s.contains(x),
{
    let t = s.update(i, s[j]).update(j, s[i]);
    assert forall|x: Step| #[trigger] t.contains(x) == s.contains(x) by {
        if t.contains(x) {
            let m = choose|m: int| 0 <= m < t.len() && t[m] == x;
            if m == j {
                assert(s[i] == x);
            } else if m == i && i != j {
                assert(s[j] == x);
            } else {
                assert(s[m] == x);
            }
            assert(s.contains(x));
        }
        if s.contains(x) {
            let m = choose|m: int| 0 <= m < s.len() && s[m] == x;
            if m == i {
                assert(t[j] == x);
            } else if m == j {
                if i != j {
                    assert(t[i] == x);
                } else {
                    assert(t[j] == x);
                }
            } else {
                assert(t[m] == x);
            }
            assert(t.contains(x));
        }
    }
}

/// Reorder the candidate moves by the search heuristic: ascending by how
/// many candidates share the move's origin, then by origin square index.
/// The reordering keeps exactly the candidates it was given.
pub fn order_moves(moves: &mut Vec<Step>)
    requires
        forall|m: int|
            0 <= m < old(moves)@.len() ==> on_board(
                (#[trigger] old(moves)@[m]).from.0 as int,
                old(moves)@[m].from.1 as int,
            ),
    ensures
        final(moves)@.len() == old(moves)@.len(),
        final(moves)@.to_multiset() == old(moves)@.to_multiset(),
        forall|m: int|
            0 <= m < final(moves)@.len() ==> old(moves)@.contains(#[trigger] final(moves)@[m]),
        forall|s: Step| old(moves)@.contains(s) ==> final(moves)@.contains(s),
        forall|m1: int, m2: int|
            0 <= m1 < m2 < final(moves)@.len() ==> heur_le(
                old(moves)@,
                #[trigger] final(moves)@[m1],
                #[trigger] final(moves)@[m2],
            ),
{
    let ghost orig: Seq<Step> = moves@;
    let mut cnt: Vec<usize> = Vec::new();
    let mut o: usize = 0;
    while o < 64
        invariant
            o <= 64,
            cnt@.len() == o,
            forall|q: int| 0 <= q < o ==> cnt@[q] == 0,
        decreases 64 - o,
    {
        cnt.push(0);
        o = o + 1;
    }
    let mut j: usize = 0;
    while j < moves.len()
        invariant
            moves@ == orig,
            forall|m: int|
                0 <= m < orig.len() ==> on_board(
                    (#[trigger] orig[m]).from.0 as int,
                    orig[m].from.1 as int,
                ),
            j <= orig.len(),
            cnt@.len() == 64,
            forall|q: int| 0 <= q < 64 ==> #[trigger] cnt@[q] == count_origin_to(orig, q, j as int),
            forall|q: int| 0 <= q < 64 ==> #[trigger] cnt@[q] <= j,
        decreases orig.len() - j,
    {
        let s = moves[j];
        let idx = s.from.0 * 8 + s.from.1;
        let c0 = cnt[idx];
        cnt[idx] = c0 + 1;
        j = j + 1;
    }
    let ghost counted: Seq<usize> = cnt@;
    proof {
        assert(forall|q: int| 0 <= q < 64 ==> #[trigger] counted[q] == count_origin(orig, q));
    }
    let mut i: usize = 1;
    while i < moves.len()
        invariant
            moves@.len() == orig.len(),
            moves@.to_multiset() == orig.to_multiset(),
            forall|m: int| 0 <= m < moves@.len() ==> orig.contains(#[trigger] moves@[m]),
            forall|s: Step| orig.contains(s) ==> moves@.contains(s),
            forall|m: int|
                0 <= m < moves@.len() ==> on_board(
                    (#[trigger] moves@[m]).from.0 as int,
                    moves@[m].from.1 as int,
                ),
            cnt@ == counted,
            cnt@.len() == 64,
            forall|q: int| 0 <= q < 64 ==> #[trigger] counted[q] == count_origin(orig, q),
            1 <= i,
            forall|m1: int, m2: int|
                0 <= m1 < m2 < i && m2 < moves@.len() ==> heur_le(
                    orig,
                    #[trigger] moves@[m1],
                    #[trigger] moves@[m2],
                ),
        decreases moves@.len() - i,
    {
        let mut k: usize = i;
        loop
            invariant
                k <= i < moves@.len(),
                moves@.len() == orig.len(),
                moves@.to_multiset() == orig.to_multiset(),
                forall|m: int| 0 <= m < moves@.len() ==> orig.contains(#[trigger] moves@[m]),
                forall|s: Step| orig.contains(s) ==> moves@.contains(s),
                forall|m: int|
                    0 <= m < moves@.len() ==> on_board(
                        (#[trigger] moves@[m]).from.0 as int,
                        moves@[m].from.1 as int,
                    ),
                cnt@ == counted,
                cnt@.len() == 64,
                forall|q: int| 0 <= q < 64 ==> #[trigger] counted[q] == count_origin(orig, q),
                forall|m1: int, m2: int|
                    0 <= m1 < m2 <= i && m2 != k ==> heur_le(
                        orig,
                        #[trigger] moves@[m1],
                        #[trigger] moves@[m2],
                    ),
            ensures
                moves@.len() == orig.len(),
                moves@.to_multiset() == orig.to_multiset(),
                forall|m: int| 0 <= m < moves@.len() ==> orig.contains(#[trigger] moves@[m]),
                forall|s: Step| orig.contains(s) ==> moves@.contains(s),
                forall|m: int|
                    0 <= m < moves@.len() ==> on_board(
                        (#[trigger] moves@[m]).from.0 as int,
                        moves@[m].from.1 as int,
                    ),
                cnt@ == counted,
                forall|m1: int, m2: int|
                    0 <= m1 < m2 <= i ==> heur_le(
                        orig,
                        #[trigger] moves@[m1],
                        #[trigger] moves@[m2],
                    ),
            decreases k,
        {
            if k == 0 {
                break ;
            }
            let a = moves[k - 1];
            let b = moves[k];
            let ka = cnt[a.from.0 * 8 + a.from.1];
            let kb = cnt[b.from.0 * 8 + b.from.1];
            if !(ka > kb || (ka == kb && a.from.0 * 8 + a.from.1 > b.from.0 * 8 + b.from.1)) {
                proof {
                    assert(heur_le(orig, a, b));
                    assert forall|m1: int, m2: int| 0 <= m1 < m2 <= i implies heur_le(
                        orig,
                        #[trigger] moves@[m1],
                        #[trigger] moves@[m2],
                    ) by {
                        if m2 == k {
                            if m1 < k - 1 {
                                assert(heur_le(orig, moves@[m1], moves@[k - 1]));
                            }
                        }
                    }
                }
                break ;
            }
            proof {
                lemma_swap_same_elements(moves@, k - 1, k as int);
                lemma_swap_multiset(moves@, k - 1, k as int);
            }
            moves[k - 1] = b;
            moves[k] = a;
            k = k - 1;
        }
        i = i + 1;
    }
}

/// A memo of positions already proven unsolvable, keyed by a digest of the
/// whole position; digest collisions are resolved by exact square-by-square
/// comparison, so a hit always names a recorded position.
struct DeadSet {
    map: HashMap<u64, Vec<Board>>,
}

impl DeadSet {
    /// Every stored board is well-formed.
    spec fn wf(self) -> bool {
        forall|h: u64, m: int|
            self.map@.contains_key(h) && 0 <= m < self.map@[h]@.len() ==> (
            #[trigger] self.map@[h]@[m]).wf()
    }

    /// Whether the position `g` is recorded.
    spec fn records(self, g: Grid) -> bool {
        exists|h: u64, m: int|
            self.map@.contains_key(h) && 0 <= m < self.map@[h]@.len() && (
            #[trigger] self.map@[h]@[m])@ == g
    }

    fn new() -> (d: DeadSet)
        ensures
            d.wf(),
            forall|g: Grid| !d.records(g),
    {
        DeadSet { map: HashMap::new() }
    }

    fn contains(&self, b: &Board) -> (r: bool)
        requires
            self.wf(),
            b.wf(),
        ensures
            r ==> self.records(b@),
    {
        let h = board_digest(b);
        match self.map.get(&h) {
            None => false,
            Some(bucket) => {
                let mut m: usize = 0;
                while m < bucket.len()
                    invariant
                        self.wf(),
                        b.wf(),
                        self.map@.contains_key(h),
                        bucket@ == self.map@[h]@,
                        m <= bucket@.len(),
                    decreases bucket@.len() - m,
                {
                    proof {
                        assert(self.map@[h]@[m as int].wf());
                    }
                    if b.same_position(&bucket[m]) {
                        proof {
                            assert(self.map@[h]@[m as int]@ == b@);
                        }
                        return true;
                    }
                    m = m + 1;
                }
                false
            },
        }
    }

    fn insert(&mut self, b: &Board)
        requires
            old(self).wf(),
            b.wf(),
        ensures
            final(self).wf(),
            forall|g: Grid|
                final(self).records(g) ==> old(self).records(g) || g == b@,
    {
        let h = board_digest(b);
        let copy = b.snapshot();
        let ghost m0: Map<u64, Vec<Board>> = self.map@;
        let prior = self.map.remove(&h);
        match prior {
            Some(mut bucket) => {
                let ghost old_bucket: Seq<Board> = bucket@;
                bucket.push(copy);
                self.map.insert(h, bucket);
                proof {
                    assert(m0.contains_key(h) && m0[h]@ == old_bucket);
                    assert forall|g: Grid|
                        final(self).records(g) implies old(self).records(g) || g == b@ by {
                        let (h2, m): (u64, int) = choose|h2: u64, m: int|
                            self.map@.contains_key(h2) && 0 <= m < self.map@[h2]@.len() && (
                            #[trigger] self.map@[h2]@[m])@ == g;
                        if h2 == h {
                            if m < old_bucket.len() {
                                assert(m0[h]@[m]@ == g);
                                assert(old(self).records(g));
                            } else {
                                assert(self.map@[h]@[m]@ == copy@);
                            }
                        } else {
                            assert(m0.contains_key(h2) && m0[h2]@[m]@ == g);
                            assert(old(self).records(g));
                        }
                    }
                }
            },
            None => {
                let mut bucket: Vec<Board> = Vec::new();
                bucket.push(copy);
                self.map.insert(h, bucket);
                proof {
                    assert forall|g: Grid|
                        final(self).records(g) implies old(self).records(g) || g == b@ by {
                        let (h2, m): (u64, int) = choose|h2: u64, m: int|
                            self.map@.contains_key(h2) && 0 <= m < self.map@[h2]@.len() && (
                            #[trigger] self.map@[h2]@[m])@ == g;
                        if h2 == h {
                            assert(self.map@[h]@[m]@ == copy@);
                        } else {
                            assert(m0.contains_key(h2) && m0[h2]@[m]@ == g);
                            assert(old(self).records(g));
                        }
                    }
                }
            },
        }
    }
}

/// A 64-bit digest of the position, used only to bucket the memo set; two
/// equal positions always digest alike.
fn board_digest(b: &Board) -> (h: u64)
    requires
        b.wf(),
{
    let mut h: u64 = 1469598103934665603;
    let mut i: usize = 0;
    while i < 64
        invariant
            b.wf(),
            i <= 64,
        decreases 64 - i,
    {
        let code: u64 = match b.cells[i] {
            None => 0,
            Some(p) => {
                proof {
                    assert(b@[i as int]->0.wf());
                }
                let t: u64 = match p.piece_type {
                    crate::piece::PieceType::King => 1,
                    crate::piece::PieceType::Queen => 2,
                    crate::piece::PieceType::Bishop => 3,
                    crate::piece::PieceType::Rook => 4,
                    crate::piece::PieceType::Knight => 5,
                    crate::piece::PieceType::Pawn => 6,
                };
                t * 4 + (p.move_left() as u64)
            },
        };
        h = ((h << 7) | (h >> 57)) ^ code;
        i = i + 1;
    }
    h
}

/// Every position recorded in the memo set is unsolvable.
spec fn dead_ok(d: DeadSet, king_required: bool) -> bool {
    forall|g: Grid| #[trigger] d.records(g) ==> !solvable(g, king_required)
}

/// The backtracking search.  It returns true exactly when the current
/// position is solvable; on success the winning trail is appended to
/// `steps` and the board is left in the won position, on failure both are
/// exactly as they were.
fn dfs(board: &mut Board, steps: &mut Vec<Step>, dead: &mut DeadSet, king_required: bool) -> (r:
    bool)
    requires
        old(board).wf(),
        old(dead).wf(),
        dead_ok(*old(dead), king_required),
    ensures
        final(board).wf(),
        final(dead).wf(),
        dead_ok(*final(dead), king_required),
        r == solvable(old(board)@, king_required),
        r ==> old(steps)@.is_prefix_of(final(steps)@) && trail_ok(
            old(board)@,
            final(steps)@.skip(old(steps)@.len() as int),
        ) && replay(old(board)@, final(steps)@.skip(old(steps)@.len() as int)) == final(board)@
            && goal(final(board)@, king_required),
        !r ==> final(steps)@ == old(steps)@ && final(board)@ == old(board)@,
    decreases piece_count(old(board)@),
{
    let p = board.count_pieces();
    if p <= 1 {
        let result = if king_required {
            board.single_is_king()
        } else {
            p == 1
        };
        proof {
            lemma_terminal(board@, king_required);
            assert(steps@.skip(old(steps)@.len() as int) =~= Seq::<Step>::empty());
            assert(old(steps)@.is_prefix_of(steps@)) by {
                assert(old(steps)@ =~= steps@.subrange(0, old(steps)@.len() as int));
            }
        }
        return result;
    }
    if board.sum_move_left() < p - 1 {
        proof {
            lemma_budget_prune(board@, king_required);
        }
        return false;
    }
    if dead.contains(board) {
        return false;
    }
    let mut moves: Vec<Step> = Vec::new();
    list_capture_pairs_into(board, &mut moves);
    if moves.len() == 0 {
        proof {
            assert forall|s: Step| #[trigger]
                legal_capture(board@, s) implies !solvable(
                apply_step(board@, s),
                king_required,
            ) by {
                assert(moves@.contains(s));
                assert(false);
            }
            lemma_children_decide(board@, king_required);
        }
        dead.insert(board);
        return false;
    }
    let ghost gen: Seq<Step> = moves@;
    proof {
        assert forall|m: int|
            0 <= m < moves@.len() implies on_board(
            (#[trigger] moves@[m]).from.0 as int,
            moves@[m].from.1 as int,
        ) by {
            assert(legal_capture(board@, moves@[m]));
        }
    }
    order_moves(&mut moves);
    let ghost g0: Grid = board@;
    let ghost steps0: Seq<Step> = steps@;
    let ghost ms: Seq<Step> = moves@;
    proof {
        assert forall|m: int|
            0 <= m < ms.len() implies legal_capture(g0, #[trigger] ms[m]) by {
            assert(gen.contains(ms[m]));
            let j = choose|j: int| 0 <= j < gen.len() && gen[j] == ms[m];
            assert(legal_capture(g0, gen[j]));
        }
    }
    let mut idx: usize = 0;
    while idx < moves.len()
        invariant
            board.wf(),
            board@ == g0,
            g0 == old(board)@,
            grid_wf(g0),
            piece_count(g0) >= 2,
            steps@ == steps0,
            steps0 == old(steps)@,
            dead.wf(),
            dead_ok(*dead, king_required),
            moves@ == ms,
            idx <= ms.len(),
            forall|m: int| 0 <= m < ms.len() ==> legal_capture(g0, #[trigger] ms[m]),
            forall|s: Step| #[trigger] legal_capture(g0, s) ==> ms.contains(s),
            forall|j: int|
                0 <= j < idx ==> !solvable(apply_step(g0, #[trigger] ms[j]), king_required),
        decreases ms.len() - idx,
    {
        let step = moves[idx];
        let (fr, fc) = step.from;
        let (tr, tc) = step.to;
        let from_piece = board.get_cell(fr, fc).unwrap();
        let to_piece = board.get_cell(tr, tc).unwrap();
        proof {
            assert(from_piece.wf() && to_piece.wf());
        }
        board.move_piece(fr, fc, tr, tc);
        proof {
            assert(board@ == apply_step(g0, step));
            lemma_apply_step_stats(g0, step);
        }
        steps.push(step);
        let found = dfs(board, steps, dead, king_required);
        if found {
            proof {
                let pushed: Seq<Step> = steps0.push(step);
                let suffix: Seq<Step> = steps@.skip(pushed.len() as int);
                assert(pushed == steps@.subrange(0, pushed.len() as int));
                assert(pushed[steps0.len() as int] == step);
                assert(steps@[steps0.len() as int] == step) by {
                    assert(steps@.subrange(0, pushed.len() as int)[steps0.len() as int]
                        == steps@[steps0.len() as int]);
                }
                assert(steps@.skip(steps0.len() as int) =~= seq![step] + suffix);
                assert(trail_ok(g0, seq![step] + suffix)) by {
                    lemma_extend_trail(g0, step, suffix);
                }
                assert(replay(g0, seq![step] + suffix) == final(board)@) by {
                    lemma_extend_trail(g0, step, suffix);
                }
                assert(trail_ok(g0, steps@.skip(steps0.len() as int)));
                assert(goal(replay(g0, steps@.skip(steps0.len() as int)), king_required));
                assert(solvable(g0, king_required));
                assert(steps0.is_prefix_of(steps@)) by {
                    assert(steps0 =~= steps@.subrange(0, steps0.len() as int));
                }
            }
            return true;
        }
        steps.pop();
        proof {
            assert(steps@ =~= steps0);
        }
        board.set_cell(fr, fc, from_piece);
        board.set_cell(tr, tc, to_piece);
        proof {
            crate::rules::lemma_sq_distinct(fr as int, fc as int, tr as int, tc as int);
            assert(board@ =~= g0);
            assert(!solvable(apply_step(g0, ms[idx as int]), king_required));
        }
        idx = idx + 1;
    }
    proof {
        assert forall|s: Step| #[trigger]
            legal_capture(g0, s) implies !solvable(apply_step(g0, s), king_required) by {
            assert(ms.contains(s));
            let j = choose|j: int| 0 <= j < ms.len() && ms[j] == s;
            assert(!solvable(apply_step(g0, ms[j]), king_required));
        }
        lemma_children_decide(g0, king_required);
    }
    dead.insert(board);
    false
}

/// Solve a solo-chess puzzle: find a sequence of captures that leaves a
/// single piece, the King when one is present.  On success the board is
/// left in the final position and the trail is returned oldest move first;
/// when no solution exists, or the board is already down to one piece or
/// none, the result is empty and the board is untouched.
pub fn solo_chess_solver(board: &mut Board) -> (steps: Vec<Step>)
    requires
        old(board).wf(),
    ensures
        final(board).wf(),
        steps@.len() == 0 ==> final(board)@ == old(board)@,
        piece_count(old(board)@) <= 1 ==> steps@.len() == 0,
        steps@.len() > 0 ==> trail_ok(old(board)@, steps@) && replay(old(board)@, steps@)
            == final(board)@ && piece_count(final(board)@) == 1 && goal(
            final(board)@,
            has_king(old(board)@),
        ),
        steps@.len() > 0 && has_king(old(board)@) ==> crate::board::single_is_king(
            final(board)@,
        ),
        piece_count(old(board)@) > 1 ==> (steps@.len() > 0 <==> solvable(
            old(board)@,
            has_king(old(board)@),
        )),
{
    let king_required = board.has_king();
    let mut steps: Vec<Step> = Vec::new();
    let mut dead = DeadSet::new();
    let found = dfs(board, &mut steps, &mut dead, king_required);
    if found {
        proof {
            assert(steps@.skip(0) =~= steps@);
            lemma_replay_stats(old(board)@, steps@);
        }
        steps
    } else {
        Vec::new()
    }
}

} // verus!
