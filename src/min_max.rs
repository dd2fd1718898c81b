use vstd::prelude::*;

verus! {

/// The side to move, or nobody.
#[derive(Clone, Copy, PartialEq, Eq, Structural, Debug)]
pub enum Player {
    Nobody,
    Black,
    White,
}

impl Player {
    pub open spec fn swapped(self) -> Player {
        match self {
            Player::Nobody => Player::Nobody,
            Player::Black => Player::White,
            Player::White => Player::Black,
        }
    }

    /// The other side; nobody stays nobody.
    pub fn swap(self) -> (r: Player)
        ensures
            r == self.swapped(),
    {
        match self {
            Player::Nobody => Player::Nobody,
            Player::Black => Player::White,
            Player::White => Player::Black,
        }
    }
}

/// The largest evaluation a game may report, in either direction.
pub const SCORE_LIMIT: i64 = 1_000_000_000;

/// The value of a node that has no move to try: below every evaluation.
pub const NO_MOVE: i64 = -1_000_000_001;

/// A window that contains every value the search can return.
pub const FULL_WINDOW: i64 = 1_000_000_002;

/// A two-player, zero-sum game that can apply a move in place and undo it.
/// Its state is described by `Model`; the search reads nothing else.
pub trait TwoPlayerGame: Sized {
    type Model;

    spec fn model(&self) -> Self::Model;

    /// Whether a state can occur.
    spec fn valid(m: Self::Model) -> bool;

    spec fn player_of(m: Self::Model) -> Player;

    /// The evaluation (from white's side) and whether the game is over.
    spec fn eval_of(m: Self::Model) -> (i64, bool);

    spec fn actions_of(m: Self::Model) -> Seq<usize>;

    /// The state after a move.
    spec fn after(m: Self::Model, action: usize) -> Self::Model;

    /// The state after undoing the last move.
    spec fn before(m: Self::Model) -> Self::Model;

    spec fn undoable(m: Self::Model) -> bool;

    /// The number of moves made on this game so far; undoing a move does not
    /// lower it.
    spec fn moves_made(&self) -> nat;

    /// A legal move leads to a state in which undoing gives back the first.
    proof fn lemma_after_before(m: Self::Model, action: usize)
        requires
            Self::valid(m),
            Self::actions_of(m).contains(action),
        ensures
            Self::valid(Self::after(m, action)),
            Self::undoable(Self::after(m, action)),
            Self::before(Self::after(m, action)) == m,
    ;

    /// In a state that can occur someone is to move and the evaluation is
    /// within the limit.
    proof fn lemma_valid(m: Self::Model)
        requires
            Self::valid(m),
        ensures
            Self::player_of(m) != Player::Nobody,
            -SCORE_LIMIT <= Self::eval_of(m).0 <= SCORE_LIMIT,
    ;

    fn current_player(&self) -> (r: Player)
        requires
            Self::valid(self.model()),
        ensures
            r == Self::player_of(self.model()),
    ;

    fn eval(&self) -> (r: (i64, bool))
        requires
            Self::valid(self.model()),
        ensures
            r == Self::eval_of(self.model()),
    ;

    fn get_legal_actions(&self) -> (r: Vec<usize>)
        requires
            Self::valid(self.model()),
        ensures
            r@ == Self::actions_of(self.model()),
    ;

    fn step(&mut self, action: usize)
        requires
            Self::valid(old(self).model()),
            Self::actions_of(old(self).model()).contains(action),
        ensures
            final(self).model() == Self::after(old(self).model(), action),
            final(self).moves_made() == old(self).moves_made() + 1,
    ;

    fn undo(&mut self)
        requires
            Self::undoable(old(self).model()),
        ensures
            final(self).model() == Self::before(old(self).model()),
            final(self).moves_made() == old(self).moves_made(),
    ;
}

/// The evaluation seen from the side to move.
pub open spec fn leaf_value<G: TwoPlayerGame>(m: G::Model) -> int {
    if G::player_of(m) == Player::Black {
        -(G::eval_of(m).0 as int)
    } else {
        G::eval_of(m).0 as int
    }
}

/// The negamax value of `m` searched `depth` plies deep.
pub open spec fn game_value<G: TwoPlayerGame>(m: G::Model, depth: nat) -> int
    decreases depth, 0nat,
{
    if depth == 0 || G::eval_of(m).1 {
        leaf_value::<G>(m)
    } else {
        best_value::<G>(m, (depth - 1) as nat, G::actions_of(m).len())
    }
}

/// The best of the negated child values over the first `n` moves of `m`,
/// each child searched `d` plies deep; `NO_MOVE` when `n` is 0. The first
/// move's value is taken whatever it is.
pub open spec fn best_value<G: TwoPlayerGame>(m: G::Model, d: nat, n: nat) -> int
    decreases d, n,
{
    if n == 0 {
        NO_MOVE as int
    } else {
        let prev = best_value::<G>(m, d, (n - 1) as nat);
        let v = -game_value::<G>(G::after(m, G::actions_of(m)[n - 1]), d);
        if n == 1 || v > prev {
            v
        } else {
            prev
        }
    }
}

/// The first of the first `n` moves of `m` that reaches `best_value`;
/// `None` only when `n` is 0.
pub open spec fn best_action<G: TwoPlayerGame>(m: G::Model, d: nat, n: nat) -> Option<usize>
    decreases n,
{
    if n == 0 {
        None
    } else {
        let prev = best_value::<G>(m, d, (n - 1) as nat);
        let v = -game_value::<G>(G::after(m, G::actions_of(m)[n - 1]), d);
        if n == 1 || v > prev {
            Some(G::actions_of(m)[n - 1])
        } else {
            best_action::<G>(m, d, (n - 1) as nat)
        }
    }
}

/// The number of moves plain negamax makes searching `m` `depth` plies deep.
pub open spec fn nodes<G: TwoPlayerGame>(m: G::Model, depth: nat) -> nat
    decreases depth, 0nat,
{
    if depth == 0 || G::eval_of(m).1 {
        0
    } else {
        nodes_sum::<G>(m, (depth - 1) as nat, G::actions_of(m).len())
    }
}

/// The moves plain negamax makes over the first `n` moves of `m`: each move
/// itself and the search below it, `d` plies deep.
pub open spec fn nodes_sum<G: TwoPlayerGame>(m: G::Model, d: nat, n: nat) -> nat
    decreases d, n,
{
    if n == 0 {
        0
    } else {
        nodes_sum::<G>(m, d, (n - 1) as nat) + 1 + nodes::<G>(G::after(m, G::actions_of(m)[n - 1]), d)
    }
}

proof fn lemma_nodes_sum_monotone<G: TwoPlayerGame>(m: G::Model, d: nat, i: nat, n: nat)
    requires
        i <= n,
    ensures
        nodes_sum::<G>(m, d, i) <= nodes_sum::<G>(m, d, n),
        i < n ==> nodes_sum::<G>(m, d, i) < nodes_sum::<G>(m, d, n),
    decreases n,
{
    if i < n {
        lemma_nodes_sum_monotone::<G>(m, d, i, (n - 1) as nat);
    }
}

/// What an alpha-beta search with window `(alpha, beta)` may return for a
/// node of value `v`: at most `alpha` only if `v` is no larger, at least
/// `beta` only if `v` is no smaller, and `v` itself in between.
pub open spec fn within_window(r: int, v: int, alpha: int, beta: int) -> bool {
    &&& r <= alpha ==> v <= r
    &&& r >= beta ==> v >= r
    &&& alpha < r < beta ==> v == r
}

proof fn lemma_best_value_monotone<G: TwoPlayerGame>(m: G::Model, d: nat, i: nat, n: nat)
    requires
        i <= n,
        i >= 1 || i == n,
    ensures
        best_value::<G>(m, d, i) <= best_value::<G>(m, d, n),
    decreases n,
{
    if i < n {
        lemma_best_value_monotone::<G>(m, d, i, (n - 1) as nat);
    }
}

/// Every value lies between `NO_MOVE` and its negation.
pub proof fn lemma_game_value_bounds<G: TwoPlayerGame>(m: G::Model, depth: nat)
    requires
        G::valid(m),
    ensures
        NO_MOVE <= game_value::<G>(m, depth) <= -NO_MOVE,
    decreases depth, 0nat,
{
    G::lemma_valid(m);
    if !(depth == 0 || G::eval_of(m).1) {
        lemma_best_value_bounds::<G>(m, (depth - 1) as nat, G::actions_of(m).len());
    }
}

proof fn lemma_best_value_bounds<G: TwoPlayerGame>(m: G::Model, d: nat, n: nat)
    requires
        G::valid(m),
        n <= G::actions_of(m).len(),
    ensures
        NO_MOVE <= best_value::<G>(m, d, n) <= -NO_MOVE,
    decreases d, n,
{
    if n > 0 {
        lemma_best_value_bounds::<G>(m, d, (n - 1) as nat);
        let a = G::actions_of(m)[n - 1];
        assert(G::actions_of(m).contains(a));
        G::lemma_after_before(m, a);
        lemma_game_value_bounds::<G>(G::after(m, a), d);
    }
}

/// Plain negamax: the value of the position for the side to move, searched
/// `depth` plies deep, and the first move that reaches it. The game is left
/// as it was.
pub fn negamax<T: TwoPlayerGame>(game: &mut T, depth: usize) -> (r: (i64, Option<usize>))
    requires
        T::valid(old(game).model()),
    ensures
        final(game).model() == old(game).model(),
        r.0 == game_value::<T>(old(game).model(), depth as nat),
        r.1 == if depth == 0 || T::eval_of(old(game).model()).1 {
            None
        } else {
            best_action::<T>(old(game).model(), (depth - 1) as nat, T::actions_of(old(game).model()).len())
        },
        !(depth == 0 || T::eval_of(old(game).model()).1) && T::actions_of(old(game).model()).len() > 0
            ==> r.1.is_some(),
        final(game).moves_made() == old(game).moves_made() + nodes::<T>(old(game).model(), depth as nat),
    decreases depth,
{
    let ghost m0 = game.model();
    let ghost n0 = game.moves_made();
    proof {
        T::lemma_valid(m0);
    }
    let (value, done) = game.eval();
    if depth == 0 || done {
        let v = match game.current_player() {
            Player::Black => -value,
            _ => value,
        };
        (v, None)
    } else {
        let mut best_val: i64 = NO_MOVE;
        let mut best_act: Option<usize> = None;
        let actions = game.get_legal_actions();
        let mut i: usize = 0;
        while i < actions.len()
            invariant
                depth > 0,
                T::valid(m0),
                game.model() == m0,
                actions@ == T::actions_of(m0),
                i <= actions@.len(),
                best_val == best_value::<T>(m0, (depth - 1) as nat, i as nat),
                best_act == best_action::<T>(m0, (depth - 1) as nat, i as nat),
                best_act.is_none() <==> i == 0,
                game.moves_made() == n0 + nodes_sum::<T>(m0, (depth - 1) as nat, i as nat),
            decreases actions@.len() - i,
        {
            let action = actions[i];
            proof {
                assert(actions@[i as int] == action);
                assert(T::actions_of(m0).contains(action));
                T::lemma_after_before(m0, action);
                lemma_best_value_bounds::<T>(m0, (depth - 1) as nat, i as nat);
                lemma_game_value_bounds::<T>(T::after(m0, action), (depth - 1) as nat);
            }
            game.step(action);
            let (child, _) = negamax(game, depth - 1);
            if best_act.is_none() || -child > best_val {
                best_val = -child;
                best_act = Some(action);
            }
            game.undo();
            i = i + 1;
        }
        (best_val, best_act)
    }
}

/// Negamax with alpha-beta pruning: the moves are tried in the same order,
/// each child with the window negated and swapped, and the rest of the
/// moves are skipped once `alpha` reaches `beta`. The result obeys
/// `within_window` against the plain negamax value. The game is left as it
/// was.
pub fn negamax_alpha_beta<T: TwoPlayerGame>(game: &mut T, depth: usize, alpha: i64, beta: i64) -> (r: (i64, Option<usize>))
    requires
        T::valid(old(game).model()),
        alpha < beta,
        alpha > i64::MIN,
    ensures
        final(game).model() == old(game).model(),
        within_window(r.0 as int, game_value::<T>(old(game).model(), depth as nat), alpha as int, beta as int),
        NO_MOVE <= r.0 <= -NO_MOVE,
        (depth == 0 || T::eval_of(old(game).model()).1) ==> r.1.is_none(),
        r.1 matches Some(a) ==> T::actions_of(old(game).model()).contains(a),
        !(depth == 0 || T::eval_of(old(game).model()).1) && T::actions_of(old(game).model()).len() > 0
            ==> r.1.is_some(),
        !(depth == 0 || T::eval_of(old(game).model()).1) && alpha < r.0 < beta ==> r.1
            == best_action::<T>(old(game).model(), (depth - 1) as nat, T::actions_of(old(game).model()).len()),
        final(game).moves_made() <= old(game).moves_made() + nodes::<T>(old(game).model(), depth as nat),
        !(depth == 0 || T::eval_of(old(game).model()).1) && (exists|i: nat|
            1 <= i < T::actions_of(old(game).model()).len() && #[trigger] best_value::<T>(
                old(game).model(),
                (depth - 1) as nat,
                i,
            ) >= beta) ==> final(game).moves_made() < old(game).moves_made() + nodes::<T>(
            old(game).model(),
            depth as nat,
        ),
    decreases depth,
{
    let ghost m0 = game.model();
    let ghost n0 = game.moves_made();
    proof {
        T::lemma_valid(m0);
    }
    let mut window_low = alpha;
    let ghost alpha0 = alpha;
    let (value, done) = game.eval();
    if depth == 0 || done {
        let v = match game.current_player() {
            Player::Black => -value,
            _ => value,
        };
        (v, None)
    } else {
        let mut best_val: i64 = NO_MOVE;
        let mut best_act: Option<usize> = None;
        let actions = game.get_legal_actions();
        let mut i: usize = 0;
        let mut cut = false;
        while i < actions.len() && !cut
            invariant
                depth > 0,
                T::valid(m0),
                game.model() == m0,
                actions@ == T::actions_of(m0),
                i <= actions@.len(),
                NO_MOVE <= best_val <= -NO_MOVE,
                alpha0 <= window_low,
                window_low <= alpha0 || window_low <= best_val,
                alpha0 < beta,
                alpha0 > i64::MIN,
                !cut ==> window_low < beta,
                cut ==> window_low >= beta,
                within_window(best_val as int, best_value::<T>(m0, (depth - 1) as nat, i as nat), alpha0 as int, beta as int),
                best_act matches Some(a) ==> T::actions_of(m0).contains(a),
                best_act.is_none() <==> i == 0,
                i == 0 ==> window_low == alpha0,
                alpha0 < best_val < beta ==> best_act == best_action::<T>(m0, (depth - 1) as nat, i as nat),
                game.moves_made() <= n0 + nodes_sum::<T>(m0, (depth - 1) as nat, i as nat),
                i >= 1 ==> best_val <= window_low,
                forall|j: nat| 1 <= j < i ==> #[trigger] best_value::<T>(m0, (depth - 1) as nat, j) < beta,
            decreases actions@.len() - i,
        {
            let action = actions[i];
            proof {
                assert(actions@[i as int] == action);
                assert(T::actions_of(m0).contains(action));
                T::lemma_after_before(m0, action);
                lemma_game_value_bounds::<T>(T::after(m0, action), (depth - 1) as nat);
            }
            game.step(action);
            let (child, _) = negamax_alpha_beta(game, depth - 1, -beta, -window_low);
            let ghost b_prev = best_val as int;
            let ghost a_prev = window_low as int;
            proof {
                let mm = best_value::<T>(m0, (depth - 1) as nat, i as nat);
                let w = -game_value::<T>(T::after(m0, action), (depth - 1) as nat);
                assert(best_value::<T>(m0, (depth - 1) as nat, (i + 1) as nat) == if i == 0 || w > mm {
                    w
                } else {
                    mm
                });
                lemma_window_step(i == 0, b_prev, mm, -child, w, a_prev, alpha0 as int, beta as int);
            }
            if best_act.is_none() || -child > best_val {
                best_val = -child;
                best_act = Some(action);
            }
            window_low = if window_low > best_val {
                window_low
            } else {
                best_val
            };
            game.undo();
            i = i + 1;
            if window_low >= beta {
                cut = true;
            }
        }
        proof {
            lemma_best_value_monotone::<T>(m0, (depth - 1) as nat, i as nat, actions@.len());
            lemma_nodes_sum_monotone::<T>(m0, (depth - 1) as nat, i as nat, actions@.len());
            if exists|j: nat|
                1 <= j < actions@.len() && #[trigger] best_value::<T>(m0, (depth - 1) as nat, j) >= beta {
                let j = choose|j: nat|
                    1 <= j < actions@.len() && #[trigger] best_value::<T>(m0, (depth - 1) as nat, j) >= beta;
                if !cut {
                    assert(best_value::<T>(m0, (depth - 1) as nat, i as nat) < beta);
                }
                assert(i <= j);
            }
        }
        (best_val, best_act)
    }
}

proof fn lemma_window_step(first: bool, b: int, mm: int, x: int, w: int, a: int, alpha: int, beta: int)
    requires
        within_window(b, mm, alpha, beta),
        first ==> a == alpha,
        alpha <= a,
        a <= alpha || a <= b,
        a < beta,
        x <= a ==> w <= x,
        x >= beta ==> w >= x,
        a < x < beta ==> w == x,
    ensures
        within_window(
            if first || x > b {
                x
            } else {
                b
            },
            if first || w > mm {
                w
            } else {
                mm
            },
            alpha,
            beta,
        ),
        alpha < (if first || x > b {
            x
        } else {
            b
        }) < beta ==> ((first || x > b) <==> (first || w > mm)),
{
}

/// With the full window, alpha-beta returns exactly the plain negamax value.
pub proof fn lemma_full_window_exact<G: TwoPlayerGame>(m: G::Model, depth: nat, r: int)
    requires
        G::valid(m),
        within_window(r, game_value::<G>(m, depth), -FULL_WINDOW as int, FULL_WINDOW as int),
    ensures
        r == game_value::<G>(m, depth),
{
    lemma_game_value_bounds::<G>(m, depth);
}

/// A count of moves made, kept exactly in the proof and, up to
/// `usize::MAX`, in the running program.
struct StepCounter {
    steps: usize,
    moves: Ghost<nat>,
}

impl StepCounter {
    #[verifier::type_invariant]
    spec fn inv(self) -> bool {
        self.steps as nat == if self.moves@ <= usize::MAX {
            self.moves@
        } else {
            usize::MAX as nat
        }
    }

    spec fn count(self) -> nat {
        self.moves@
    }

    fn zero() -> (r: StepCounter)
        ensures
            r.count() == 0,
    {
        StepCounter { steps: 0, moves: Ghost(0) }
    }

    fn bumped(&self) -> (r: StepCounter)
        ensures
            r.count() == self.count() + 1,
    {
        proof {
            use_type_invariant(self);
        }
        let steps = if self.steps < usize::MAX {
            self.steps + 1
        } else {
            self.steps
        };
        StepCounter { steps, moves: Ghost(self.moves@ + 1) }
    }

    fn value(&self) -> (r: usize)
        ensures
            r as nat == if self.count() <= usize::MAX {
                self.count()
            } else {
                usize::MAX as nat
            },
    {
        proof {
            use_type_invariant(self);
        }
        self.steps
    }
}

/// The state of a `TreeGame`: the tree and the path from the root to the
/// current node.
pub struct TreeModel {
    pub values: Seq<i64>,
    pub terminal: Seq<bool>,
    pub first_child: Seq<usize>,
    pub child_count: Seq<usize>,
    pub path: Seq<usize>,
}

impl TreeModel {
    pub open spec fn current(self) -> int {
        self.path.last() as int
    }
}

/// A game given by its whole tree. Node 0 is the root; the children of
/// node `n` are the nodes `first_child[n]` to `first_child[n] + child_count[n] - 1`,
/// and moving to a child is the move named by its index. `values[n]` is the
/// evaluation of node `n` from white's side, `terminal[n]` whether the game
/// ends there. White moves at the root, and the sides alternate.
pub struct TreeGame {
    values: Vec<i64>,
    terminal: Vec<bool>,
    first_child: Vec<usize>,
    child_count: Vec<usize>,
    path: Vec<usize>,
    steps: StepCounter,
}

pub open spec fn tree_ok(values: Seq<i64>, terminal: Seq<bool>, first_child: Seq<usize>, child_count: Seq<usize>) -> bool {
    &&& values.len() > 0
    &&& terminal.len() == values.len()
    &&& first_child.len() == values.len()
    &&& child_count.len() == values.len()
    &&& forall|n: int|
        0 <= n < values.len() ==> -SCORE_LIMIT <= #[trigger] values[n] <= SCORE_LIMIT
    &&& forall|n: int|
        0 <= n < values.len() ==> #[trigger] first_child[n] + child_count[n] <= values.len()
}

impl TreeGame {
    pub closed spec fn tree_model(&self) -> TreeModel {
        TreeModel {
            values: self.values@,
            terminal: self.terminal@,
            first_child: self.first_child@,
            child_count: self.child_count@,
            path: self.path@,
        }
    }

    /// The game at the root of the given tree; `None` when the tables have
    /// different lengths, are empty, hold an evaluation beyond
    /// `SCORE_LIMIT`, or name children past the last node.
    pub fn new(
        values: Vec<i64>,
        terminal: Vec<bool>,
        first_child: Vec<usize>,
        child_count: Vec<usize>,
    ) -> (r: Option<TreeGame>)
        ensures
            r.is_some() <==> tree_ok(values@, terminal@, first_child@, child_count@),
            r matches Some(g) ==> <TreeGame as TwoPlayerGame>::valid(g.model()) && g.model().path == seq![0usize]
                && g.model().values == values@ && g.model().terminal == terminal@
                && g.model().first_child == first_child@ && g.model().child_count == child_count@
                && g.moves_made() == 0,
    {
        let n = values.len();
        if n == 0 || terminal.len() != n || first_child.len() != n || child_count.len() != n {
            return None;
        }
        let mut i: usize = 0;
        while i < n
            invariant
                n == values@.len(),
                terminal@.len() == n,
                first_child@.len() == n,
                child_count@.len() == n,
                i <= n,
                forall|m: int| 0 <= m < i ==> -SCORE_LIMIT <= #[trigger] values@[m] <= SCORE_LIMIT,
                forall|m: int| 0 <= m < i ==> #[trigger] first_child@[m] + child_count@[m] <= n,
            decreases n - i,
        {
            if values[i] < -SCORE_LIMIT || values[i] > SCORE_LIMIT {
                return None;
            }
            if first_child[i] > n || child_count[i] > n - first_child[i] {
                return None;
            }
            i = i + 1;
        }
        let mut path: Vec<usize> = Vec::new();
        path.push(0);
        Some(TreeGame { values, terminal, first_child, child_count, path, steps: StepCounter::zero() })
    }

    /// The number of moves made so far, or `usize::MAX` past it.
    pub fn steps(&self) -> (r: usize)
        ensures
            r as nat == if self.moves_made() <= usize::MAX {
                self.moves_made()
            } else {
                usize::MAX as nat
            },
    {
        self.steps.value()
    }
}

impl TwoPlayerGame for TreeGame {
    type Model = TreeModel;

    closed spec fn model(&self) -> TreeModel {
        self.tree_model()
    }

    open spec fn valid(m: TreeModel) -> bool {
        &&& tree_ok(m.values, m.terminal, m.first_child, m.child_count)
        &&& m.path.len() > 0
        &&& forall|k: int| 0 <= k < m.path.len() ==> #[trigger] m.path[k] < m.values.len()
    }

    open spec fn player_of(m: TreeModel) -> Player {
        if m.path.len() % 2 == 1 {
            Player::White
        } else {
            Player::Black
        }
    }

    open spec fn eval_of(m: TreeModel) -> (i64, bool) {
        (m.values[m.current()], m.terminal[m.current()])
    }

    open spec fn actions_of(m: TreeModel) -> Seq<usize> {
        Seq::new(m.child_count[m.current()] as nat, |i: int| (m.first_child[m.current()] + i) as usize)
    }

    open spec fn after(m: TreeModel, action: usize) -> TreeModel {
        TreeModel { path: m.path.push(action), ..m }
    }

    open spec fn before(m: TreeModel) -> TreeModel {
        TreeModel { path: m.path.drop_last(), ..m }
    }

    open spec fn undoable(m: TreeModel) -> bool {
        m.path.len() > 1
    }

    closed spec fn moves_made(&self) -> nat {
        self.steps.count()
    }

    proof fn lemma_after_before(m: TreeModel, action: usize) {
        let cur = m.current();
        assert(0 <= cur < m.values.len());
        let acts = Self::actions_of(m);
        let i = choose|i: int| 0 <= i < acts.len() && acts[i] == action;
        assert(m.first_child[cur] + m.child_count[cur] <= m.values.len());
        assert(action < m.values.len());
        let m2 = Self::after(m, action);
        assert forall|k: int| 0 <= k < m2.path.len() implies #[trigger] m2.path[k] < m2.values.len() by {
            if k < m.path.len() {
                assert(m2.path[k] == m.path[k]);
            }
        }
        assert(m.path.push(action).drop_last() =~= m.path);
    }

    proof fn lemma_valid(m: TreeModel) {
        assert(0 <= m.current() < m.values.len());
    }

    fn current_player(&self) -> (r: Player) {
        if self.path.len() % 2 == 1 {
            Player::White
        } else {
            Player::Black
        }
    }

    fn eval(&self) -> (r: (i64, bool)) {
        let cur = self.path[self.path.len() - 1];
        (self.values[cur], self.terminal[cur])
    }

    fn get_legal_actions(&self) -> (r: Vec<usize>) {
        let cur = self.path[self.path.len() - 1];
        proof {
            assert(self.path@[self.path@.len() - 1] < self.values@.len());
        }
        let first = self.first_child[cur];
        let count = self.child_count[cur];
        let n = self.values.len();
        let mut actions: Vec<usize> = Vec::new();
        let mut i: usize = 0;
        while i < count
            invariant
                i <= count,
                n == self.values@.len(),
                first + count <= n,
                actions@ =~= Seq::new(i as nat, |j: int| (first + j) as usize),
            decreases count - i,
        {
            actions.push(first + i);
            i = i + 1;
        }
        actions
    }

    fn step(&mut self, action: usize) {
        self.path.push(action);
        self.steps = self.steps.bumped();
    }

    fn undo(&mut self) {
        self.path.pop();
    }
}

} // verus!
