//! Best-first search over boards, from a deal to a solved board.
use vstd::prelude::*;
use vstd::multiset::Multiset;
use rustc_hash::FxHashSet;
use crate::card::{Card, Suit};
use crate::deck::{
    is_complete_deal, lemma_history_stays_complete, lemma_solution_ends_won, lemma_solved_board,
};
use crate::game_state::{
    BoardView, GameState, MoveColumnParameters, face_down, lemma_remove_dragons_len, run_length,
};

verus! {

/// One step of a solution.
#[derive(Debug, Clone, Copy, PartialEq, Eq, Structural)]
pub enum GameMove {
    /// Marks the deal itself, at the head of a solution.
    Start,
    ColumnToTopRightStorage { column: usize },
    TopLeftToTopRightStorage { top_left_index: usize },
    CollectDragons { suit: Suit },
    ColumnToOtherColumn { from_column_index: usize, to_column_index: usize, stack_size: usize },
    ToTopLeftStorage { column: usize },
    TopLeftToColumn { top_left_index: usize, column_index: usize },
}

/// The board that a legal move leads to, or `None` where the move is not
/// legal (`Start` is no move).
pub open spec fn apply_move(b: BoardView, m: GameMove) -> Option<BoardView> {
    match m {
        GameMove::Start => None,
        GameMove::ColumnToTopRightStorage { column } => if b.can_column_to_foundation(
            column as int,
        ) {
            Some(b.after_column_to_foundation(column as int))
        } else {
            None
        },
        GameMove::TopLeftToTopRightStorage { top_left_index } => if b.can_free_cell_to_foundation(
            top_left_index as int,
        ) {
            Some(b.after_free_cell_to_foundation(top_left_index as int))
        } else {
            None
        },
        GameMove::CollectDragons { suit } => if b.can_collect_dragons(suit) {
            Some(b.after_collect_dragons(suit))
        } else {
            None
        },
        GameMove::ColumnToOtherColumn { from_column_index, to_column_index, stack_size } => {
            if b.can_move_run(from_column_index as int, to_column_index as int, stack_size as int) {
                Some(
                    b.after_move_run(
                        from_column_index as int,
                        to_column_index as int,
                        stack_size as int,
                    ),
                )
            } else {
                None
            }
        },
        GameMove::ToTopLeftStorage { column } => if b.can_column_to_free_cell(column as int) {
            Some(b.after_column_to_free_cell(column as int))
        } else {
            None
        },
        GameMove::TopLeftToColumn { top_left_index, column_index } => {
            if b.can_free_cell_to_column(top_left_index as int, column_index as int) {
                Some(b.after_free_cell_to_column(top_left_index as int, column_index as int))
            } else {
                None
            }
        },
    }
}

/// True iff the states, each reached from the one before by its move, lead
/// from `initial`, marked by `Start`.
pub open spec fn is_history(
    initial: BoardView,
    states: Seq<BoardView>,
    moves: Seq<GameMove>,
) -> bool {
    &&& states.len() >= 1
    &&& moves.len() == states.len()
    &&& states[0] == initial
    &&& moves[0] == GameMove::Start
    &&& forall|i: int|
        1 <= i < states.len() ==> apply_move(states[i - 1], #[trigger] moves[i]) == Some(
            states[i],
        )
}

/// True iff the steps are a history from `initial` that ends on a solved
/// board.
pub open spec fn is_solution(initial: BoardView, steps: Seq<(GameState, GameMove)>) -> bool {
    &&& is_history(
        initial,
        steps.map_values(|p: (GameState, GameMove)| p.0@),
        steps.map_values(|p: (GameState, GameMove)| p.1),
    )
    &&& steps.last().0@.is_solved()
}

/// True iff the column holds a dragon.
pub open spec fn has_dragon(col: Seq<Card>) -> bool {
    exists|j: int| 0 <= j < col.len() && (#[trigger] col[j]).spec_is_dragon()
}

/// The cards of the columns that hold a dragon.
pub open spec fn blocked_cards(cols: Seq<Seq<Card>>) -> int
    decreases cols.len(),
{
    if cols.len() == 0 {
        0
    } else {
        blocked_cards(cols.drop_last()) + if has_dragon(cols.last()) {
            cols.last().len() as int
        } else {
            0
        }
    }
}

/// The sum of the foundation counters.
pub open spec fn foundation_sum(f: Seq<u8>) -> int
    decreases f.len(),
{
    if f.len() == 0 {
        0
    } else {
        foundation_sum(f.drop_last()) + f.last() as int
    }
}

/// The score of a board: cards collected, less the cards in columns that a
/// dragon blocks.
pub open spec fn heuristic(b: BoardView) -> int {
    foundation_sum(b.foundation) - blocked_cards(b.columns)
}

fn column_has_dragon(col: &Vec<Card>) -> (r: bool)
    ensures
        r == has_dragon(col@),
{
    let mut i: usize = 0;
    while i < col.len()
        invariant
            i <= col@.len(),
            forall|j: int| 0 <= j < i ==> !(#[trigger] col@[j]).spec_is_dragon(),
        decreases col@.len() - i,
    {
        if col[i].is_dragon() {
            return true;
        }
        i = i + 1;
    }
    false
}

/// rustc_hash's hasher, which `FxHashSet` builds through
/// `BuildHasherDefault`.
#[verifier::external_type_specification]
#[verifier::external_body]
pub struct ExFxHasher(rustc_hash::FxHasher);

/// std's builder of default hashers, the hasher parameter of `FxHashSet`.
#[verifier::external_type_specification]
#[verifier::external_body]
#[verifier::reject_recursive_types(H)]
pub struct ExBuildHasherDefault<H>(core::hash::BuildHasherDefault<H>);

/// What equality of boards compares: the free cells and the columns as
/// multisets, and the foundation.
pub type BoardKey = (Multiset<Card>, Seq<u8>, Multiset<Seq<Card>>);

/// The canonical key of a board.
pub open spec fn board_key(b: BoardView) -> BoardKey {
    (b.free_cells.to_multiset(), b.foundation, b.columns.to_multiset())
}

/// The keys of the boards held by a set of visited boards.
pub uninterp spec fn visited_keys(s: FxHashSet<GameState>) -> Set<BoardKey>;

/// Relies on `HashSet::default` (the `Default` of rustc_hash's `FxHashSet`):
/// the new set is empty.
#[verifier::external_body]
fn new_visited_set() -> (r: FxHashSet<GameState>)
    ensures
        visited_keys(r) == Set::<BoardKey>::empty(),
{
    FxHashSet::default()
}

/// Relies on `HashSet::insert`: afterwards the set holds a board equal to
/// `state`. Boards are equal iff their keys are (`GameState`'s `eq`), and
/// hash alike when equal (`GameState`'s `hash` reads the canonical form).
#[verifier::external_body]
fn insert_visited(set: &mut FxHashSet<GameState>, state: GameState)
    ensures
        visited_keys(*final(set)) == visited_keys(*old(set)).insert(board_key(state@)),
{
    set.insert(state);
}

/// Relies on `HashSet::contains`: true iff the set holds a board equal to
/// `state`, that is one with the same key.
#[verifier::external_body]
fn is_visited(set: &FxHashSet<GameState>, state: &GameState) -> (r: bool)
    ensures
        r == visited_keys(*set).contains(board_key(state@)),
{
    set.contains(state)
}

/// True iff one move to the foundation solves the board.
pub open spec fn one_foundation_move_from_solved(b: BoardView) -> bool {
    &&& !b.is_solved()
    &&& ((exists|i: int|
        b.can_column_to_foundation(i) && (#[trigger] b.after_column_to_foundation(i)).is_solved())
        || (exists|k: int|
        b.can_free_cell_to_foundation(k) && (#[trigger] b.after_free_cell_to_foundation(
            k,
        )).is_solved()))
}

/// A board in the open set, with the boards and moves that reached it.
struct PrioritisedGameState {
    priority: i128,
    state: GameState,
    path: Vec<GameState>,
    moves: Vec<GameMove>,
}

spec fn path_view(p: Seq<GameState>) -> Seq<BoardView> {
    p.map_values(|s: GameState| s@)
}

/// True iff no two boards of the path are equal.
pub open spec fn has_distinct_keys(states: Seq<BoardView>) -> bool {
    forall|i: int, j: int|
        0 <= i < states.len() && 0 <= j < states.len() && i != j ==> board_key(
            #[trigger] states[i],
        ) != board_key(#[trigger] states[j])
}

/// The node's history leads from `initial` to its board without repeating
/// a board, and its priority is the board's score.
spec fn node_valid(n: PrioritisedGameState, initial: BoardView) -> bool {
    &&& is_history(initial, path_view(n.path@), n.moves@)
    &&& has_distinct_keys(path_view(n.path@))
    &&& n.path@.last()@ == n.state@
    &&& n.priority == heuristic(n.state@)
}

/// Every board of the node's path has been reached.
spec fn path_keys_visited(n: PrioritisedGameState, closed: FxHashSet<GameState>) -> bool {
    forall|i: int|
        0 <= i < n.path@.len() ==> visited_keys(closed).contains(
            board_key(#[trigger] path_view(n.path@)[i]),
        )
}

/// `n` is the child of `parent` by the move `m`: its board is the one `m`
/// leads to, its history is the parent's extended by that board and `m`.
spec fn is_child_node(parent: PrioritisedGameState, n: PrioritisedGameState, m: GameMove) -> bool {
    &&& apply_move(parent.state@, m) is Some
    &&& n.state@ == apply_move(parent.state@, m).unwrap()
    &&& path_view(n.path@) == path_view(parent.path@).push(n.state@)
    &&& n.moves@ == parent.moves@.push(m)
    &&& n.priority == heuristic(n.state@)
}

/// The key of the board that the move `m` leads to from `b`.
pub open spec fn child_key(b: BoardView, m: GameMove) -> BoardKey {
    board_key(apply_move(b, m).unwrap())
}

/// What recording the child of `node` by `m` does: its key joins the
/// reached boards, and if it was not reached before, the child joins the
/// open set.
spec fn records_child(
    node: PrioritisedGameState,
    m: GameMove,
    open: Seq<PrioritisedGameState>,
    closed: FxHashSet<GameState>,
    new_open: Seq<PrioritisedGameState>,
    new_closed: FxHashSet<GameState>,
) -> bool {
    let key = child_key(node.state@, m);
    &&& visited_keys(new_closed) == visited_keys(closed).insert(key)
    &&& visited_keys(closed).contains(key) ==> new_open == open
    &&& !visited_keys(closed).contains(key) ==> {
        &&& new_open.len() == open.len() + 1
        &&& new_open.subrange(0, open.len() as int) == open
        &&& is_child_node(node, new_open.last(), m)
    }
}

/// The first of the three free cells whose card can go to the foundation,
/// when no column top can.
pub open spec fn is_forced_cell(b: BoardView, k: int) -> bool {
    &&& 0 <= k < 3
    &&& b.can_free_cell_to_foundation(k)
    &&& forall|j: int| 0 <= j < k ==> !b.can_free_cell_to_foundation(j)
    &&& forall|j: int| 0 <= j < 8 ==> !b.can_column_to_foundation(j)
}

/// No column top and none of the three first free cells can go to the
/// foundation.
pub open spec fn has_no_forced_move(b: BoardView) -> bool {
    &&& forall|j: int| 0 <= j < 8 ==> !b.can_column_to_foundation(j)
    &&& forall|j: int| 0 <= j < 3 ==> !b.can_free_cell_to_foundation(j)
}

/// The moves that the search takes from `b`: the forced foundation move
/// of the first such column, else of the first such free cell, else every
/// choice move.
pub open spec fn is_search_move(b: BoardView, m: GameMove) -> bool {
    match m {
        GameMove::ColumnToTopRightStorage { column } => is_forced_column(b, column as int),
        GameMove::TopLeftToTopRightStorage { top_left_index } => is_forced_cell(
            b,
            top_left_index as int,
        ),
        _ => has_no_forced_move(b) && is_choice_move(b, m),
    }
}

/// Every key of `expanded` is reached and stands for a board that is not
/// solved and whose search moves all lead to reached keys.
pub open spec fn search_closed_over(expanded: Set<BoardKey>, reached: Set<BoardKey>) -> bool {
    forall|k: BoardKey|
        #[trigger] expanded.contains(k) ==> {
            &&& reached.contains(k)
            &&& exists|b: BoardView|
                #![trigger board_key(b)]
                board_key(b) == k && !b.is_solved() && forall|m: GameMove|
                    is_search_move(b, m) ==> reached.contains(#[trigger] child_key(b, m))
        }
}

/// The first column whose top card can go to the foundation.
pub open spec fn is_forced_column(b: BoardView, i: int) -> bool {
    &&& b.can_column_to_foundation(i)
    &&& forall|j: int| 0 <= j < i ==> !b.can_column_to_foundation(j)
}

fn copy_path(v: &Vec<GameState>) -> (r: Vec<GameState>)
    ensures
        path_view(r@) == path_view(v@),
{
    let mut r: Vec<GameState> = Vec::new();
    let mut i: usize = 0;
    while i < v.len()
        invariant
            i <= v@.len(),
            r@.len() == i,
            forall|j: int| 0 <= j < i ==> (#[trigger] r@[j])@ == v@[j]@,
        decreases v@.len() - i,
    {
        r.push(v[i].duplicate());
        i = i + 1;
    }
    assert(path_view(r@) =~= path_view(v@));
    r
}

fn copy_moves(v: &Vec<GameMove>) -> (r: Vec<GameMove>)
    ensures
        r@ == v@,
{
    let mut r: Vec<GameMove> = Vec::new();
    let mut i: usize = 0;
    while i < v.len()
        invariant
            i <= v@.len(),
            r@ == v@.subrange(0, i as int),
        decreases v@.len() - i,
    {
        r.push(v[i]);
        i = i + 1;
        assert(r@ =~= v@.subrange(0, i as int));
    }
    assert(v@.subrange(0, v@.len() as int) =~= v@);
    r
}

/// Pairs each board of a history with the move that reached it.
fn zip_history(path: &Vec<GameState>, moves: &Vec<GameMove>) -> (r: Vec<(GameState, GameMove)>)
    requires
        path@.len() == moves@.len(),
    ensures
        r@.map_values(|p: (GameState, GameMove)| p.0@) == path_view(path@),
        r@.map_values(|p: (GameState, GameMove)| p.1) == moves@,
{
    let mut r: Vec<(GameState, GameMove)> = Vec::new();
    let mut i: usize = 0;
    while i < path.len()
        invariant
            i <= path@.len(),
            path@.len() == moves@.len(),
            r@.len() == i,
            forall|j: int|
                0 <= j < i ==> (#[trigger] r@[j]).0@ == path@[j]@ && r@[j].1 == moves@[j],
        decreases path@.len() - i,
    {
        r.push((path[i].duplicate(), moves[i]));
        i = i + 1;
    }
    assert(r@.map_values(|p: (GameState, GameMove)| p.0@) =~= path_view(path@));
    assert(r@.map_values(|p: (GameState, GameMove)| p.1) =~= moves@);
    r
}

/// The search engine: an open set of boards to expand, best score first,
/// and the set of boards already reached.
pub struct Game {
    open: Vec<PrioritisedGameState>,
    closed: FxHashSet<GameState>,
    expanded: usize,
    expanded_keys: Ghost<Set<BoardKey>>,
    abandoned: bool,
}

/// What expanding one board comes to.
enum Expansion {
    /// The board is won: the search ends with this history.
    Solved { steps: Vec<(GameState, GameMove)> },
    /// The columns are empty but the board is not won, which legal play
    /// from a complete deal never reaches: the search is abandoned.
    Inconsistent,
    /// The search goes on.
    Continue,
}

impl Game {
    /// Every open board has a valid history, has been recorded as reached,
    /// and is the only open board with its key.
    spec fn inv(self, initial: BoardView) -> bool {
        &&& forall|k: int|
            0 <= k < self.open@.len() ==> node_valid(#[trigger] self.open@[k], initial)
        &&& forall|k: int|
            0 <= k < self.open@.len() ==> visited_keys(self.closed).contains(
                board_key(#[trigger] self.open@[k].state@),
            )
        &&& forall|j: int, k: int|
            0 <= j < self.open@.len() && 0 <= k < self.open@.len() && j != k ==> board_key(
                #[trigger] self.open@[j].state@,
            ) != board_key(#[trigger] self.open@[k].state@)
        &&& forall|k: int|
            0 <= k < self.open@.len() ==> path_keys_visited(#[trigger] self.open@[k], self.closed)
    }

    /// The number of boards still to expand.
    pub closed spec fn open_len(&self) -> nat {
        self.open@.len()
    }

    /// The number of boards the last search that found nothing expanded.
    pub closed spec fn expanded(&self) -> nat {
        self.expanded as nat
    }

    /// The keys of the boards that search expanded.
    pub closed spec fn expanded_keys(&self) -> Set<BoardKey> {
        self.expanded_keys@
    }

    /// The keys of the boards reached.
    pub closed spec fn reached(&self) -> Set<BoardKey> {
        visited_keys(self.closed)
    }

    /// The keys of the boards still to expand.
    pub closed spec fn open_keys(&self) -> Set<BoardKey> {
        Set::new(
            |k: BoardKey|
                exists|j: int| 0 <= j < self.open@.len() && board_key(#[trigger] self.open@[j].state@) == k,
        )
    }

    /// True iff the last search was abandoned on a board whose columns are
    /// empty but which is not won.
    pub closed spec fn abandoned(&self) -> bool {
        self.abandoned
    }

    /// Whether the last search was abandoned on a board whose columns are
    /// empty but which is not won, which legal play from a complete deal
    /// never reaches.
    pub fn last_search_abandoned(&self) -> (r: bool)
        ensures
            r == self.abandoned(),
    {
        self.abandoned
    }

    /// True iff the engine has no board to expand and has reached none.
    pub closed spec fn is_idle(&self) -> bool {
        &&& self.open@.len() == 0
        &&& visited_keys(self.closed) == Set::<BoardKey>::empty()
    }

    /// An engine with nothing to expand.
    pub fn new() -> (r: Game)
        ensures
            r.is_idle(),
    {
        Game {
            open: Vec::new(),
            closed: new_visited_set(),
            expanded: 0,
            expanded_keys: Ghost(Set::empty()),
            abandoned: false,
        }
    }

    /// The score of a board: the sum of the foundation counters, less the
    /// cards of every column that holds a dragon.
    pub fn heuristic(state: &GameState) -> (r: i128)
        ensures
            r as int == heuristic(state@),
    {
        let mut collected: i128 = 0;
        let mut k: usize = 0;
        let ghost f = state@.foundation;
        assert(f.subrange(0, 0) =~= Seq::<u8>::empty());
        while k < 4
            invariant
                k <= 4,
                f == state@.foundation,
                f.len() == 4,
                collected as int == foundation_sum(f.subrange(0, k as int)),
                0 <= collected <= 255 * k,
            decreases 4 - k,
        {
            assert(f.subrange(0, k + 1).drop_last() =~= f.subrange(0, k as int));
            collected = collected + state.top_right_storage[k] as i128;
            k = k + 1;
        }
        assert(f.subrange(0, 4) =~= f);
        let ghost cols = state@.columns;
        let mut blocked: i128 = 0;
        let mut i: usize = 0;
        assert(cols.subrange(0, 0) =~= Seq::<Seq<Card>>::empty());
        while i < 8
            invariant
                i <= 8,
                cols == state@.columns,
                cols.len() == 8,
                blocked as int == blocked_cards(cols.subrange(0, i as int)),
                0 <= blocked <= i * 0x1_0000_0000_0000_0000,
            decreases 8 - i,
        {
            assert(cols.subrange(0, i + 1).drop_last() =~= cols.subrange(0, i as int));
            assert(cols[i as int] == state.columns@[i as int]@);
            if column_has_dragon(&state.columns[i]) {
                blocked = blocked + state.columns[i].len() as i128;
            }
            i = i + 1;
        }
        assert(cols.subrange(0, 8) =~= cols);
        collected - blocked
    }

    /// Starts a search from `state`: it is the one open board, and the one
    /// board reached.
    fn initialise(&mut self, state: GameState)
        ensures
            final(self).open@.len() == 1,
            final(self).open@[0].state@ == state@,
            final(self).open@[0].path@.len() == 1,
            final(self).inv(state@),
            visited_keys(final(self).closed) == set![board_key(state@)],
    {
        let mut closed = new_visited_set();
        insert_visited(&mut closed, state.duplicate());
        let path = vec![state.duplicate()];
        let moves = vec![GameMove::Start];
        let priority = Self::heuristic(&state);
        let root = PrioritisedGameState { priority, state, path, moves };
        proof {
            assert(path_view(root.path@) =~= seq![state@]);
        }
        self.closed = closed;
        self.open = vec![root];
        assert(visited_keys(self.closed) =~= set![board_key(state@)]);
    }

    /// Takes a board of the best score out of the open set.
    fn pop_best(&mut self, Ghost(initial): Ghost<BoardView>) -> (r: PrioritisedGameState)
        requires
            old(self).open@.len() > 0,
            old(self).inv(initial),
        ensures
            final(self).inv(initial),
            old(self).open@.contains(r),
            forall|j: int|
                0 <= j < old(self).open@.len() ==> (#[trigger] old(self).open@[j]).priority
                    <= r.priority,
            final(self).open@.len() == old(self).open@.len() - 1,
            forall|j: int|
                0 <= j < final(self).open@.len() ==> old(self).open@.contains(
                    #[trigger] final(self).open@[j],
                ),
            final(self).closed == old(self).closed,
            forall|j: int|
                0 <= j < old(self).open@.len() && #[trigger] old(self).open@[j] != r
                    ==> final(self).open@.contains(old(self).open@[j]),
            forall|j: int|
                0 <= j < final(self).open@.len() ==> board_key(
                    #[trigger] final(self).open@[j].state@,
                ) != board_key(r.state@),
            final(self).expanded == old(self).expanded,
            final(self).abandoned == old(self).abandoned,
    {
        let mut best: usize = 0;
        let mut i: usize = 1;
        while i < self.open.len()
            invariant
                1 <= i <= self.open@.len(),
                best < i,
                forall|j: int| 0 <= j < i ==> (#[trigger] self.open@[j]).priority
                    <= self.open@[best as int].priority,
            decreases self.open@.len() - i,
        {
            if self.open[i].priority > self.open[best].priority {
                best = i;
            }
            i = i + 1;
        }
        let ghost before = self.open@;
        let r = self.open.swap_remove(best);
        proof {
            let last = before.len() - 1;
            assert forall|j: int, k: int|
                0 <= j < self.open@.len() && 0 <= k < self.open@.len() && j != k implies board_key(
                #[trigger] self.open@[j].state@,
            ) != board_key(#[trigger] self.open@[k].state@) by {
                let jj = if j == best { last } else { j };
                let kk = if k == best { last } else { k };
                assert(self.open@[j] == before[jj]);
                assert(self.open@[k] == before[kk]);
            }
            assert forall|k: int| 0 <= k < self.open@.len() implies node_valid(
                #[trigger] self.open@[k],
                initial,
            ) && visited_keys(self.closed).contains(board_key(self.open@[k].state@))
                && path_keys_visited(self.open@[k], self.closed) by {
                let kk = if k == best { last } else { k };
                assert(self.open@[k] == before[kk]);
            }
            assert(before.contains(before[best as int]));
            assert forall|j: int|
                0 <= j < before.len() && #[trigger] before[j] != r implies self.open@.contains(
                before[j],
            ) by {
                if j == last {
                    assert(self.open@[best as int] == before[j]);
                } else {
                    assert(self.open@[j] == before[j]);
                }
            }
            assert forall|j: int| 0 <= j < self.open@.len() implies board_key(
                #[trigger] self.open@[j].state@,
            ) != board_key(r.state@) by {
                let jj = if j == best { last } else { j };
                assert(self.open@[j] == before[jj]);
            }
            assert forall|j: int| 0 <= j < self.open@.len() implies before.contains(
                #[trigger] self.open@[j],
            ) by {
                if j == best {
                    assert(self.open@[j] == before[before.len() - 1]);
                } else {
                    assert(self.open@[j] == before[j]);
                }
            }
        }
        r
    }

    /// Records a board reached from `parent` by `game_move`; a board not
    /// reached before joins the open set as the parent's child.
    fn visit_node(
        &mut self,
        parent: &PrioritisedGameState,
        state: GameState,
        game_move: GameMove,
        Ghost(initial): Ghost<BoardView>,
    )
        requires
            old(self).inv(initial),
            node_valid(*parent, initial),
            path_keys_visited(*parent, old(self).closed),
            apply_move(parent.state@, game_move) == Some(state@),
        ensures
            final(self).inv(initial),
            records_child(
                *parent,
                game_move,
                old(self).open@,
                old(self).closed,
                final(self).open@,
                final(self).closed,
            ),
    {
        let ghost key = board_key(state@);
        if !is_visited(&self.closed, &state) {
            let ghost closed_before = self.closed;
            insert_visited(&mut self.closed, state.duplicate());
            let mut path = copy_path(&parent.path);
            path.push(state.duplicate());
            let mut moves = copy_moves(&parent.moves);
            moves.push(game_move);
            let priority = Self::heuristic(&state);
            let node = PrioritisedGameState { priority, state, path, moves };
            proof {
                let pv = path_view(parent.path@);
                assert(path_view(node.path@) =~= pv.push(state@));
                let nv = path_view(node.path@);
                assert forall|i: int| 1 <= i < nv.len() implies apply_move(
                    nv[i - 1],
                    #[trigger] node.moves@[i],
                ) == Some(nv[i]) by {
                    if i < nv.len() - 1 {
                        assert(node.moves@[i] == parent.moves@[i]);
                        assert(apply_move(pv[i - 1], parent.moves@[i]) == Some(pv[i]));
                    }
                }
                assert forall|i: int, j: int|
                    0 <= i < nv.len() && 0 <= j < nv.len() && i != j implies board_key(
                    #[trigger] nv[i],
                ) != board_key(#[trigger] nv[j]) by {
                    if i < pv.len() && j < pv.len() {
                        assert(board_key(pv[i]) != board_key(pv[j]));
                    } else if i < pv.len() {
                        assert(visited_keys(closed_before).contains(board_key(pv[i])));
                    } else {
                        assert(visited_keys(closed_before).contains(board_key(pv[j])));
                    }
                }
                assert forall|i: int| 0 <= i < node.path@.len() implies visited_keys(
                    self.closed,
                ).contains(board_key(#[trigger] path_view(node.path@)[i])) by {
                    if i < pv.len() {
                        assert(visited_keys(closed_before).contains(board_key(pv[i])));
                    }
                }
            }
            let ghost before = self.open@;
            self.open.push(node);
            assert(self.open@.subrange(0, before.len() as int) =~= before);
            assert forall|k: int| 0 <= k < self.open@.len() implies node_valid(
                #[trigger] self.open@[k],
                initial,
            ) && visited_keys(self.closed).contains(board_key(self.open@[k].state@))
                && path_keys_visited(self.open@[k], self.closed) by {
                if k < before.len() {
                    assert(self.open@[k] == before[k]);
                    assert(path_keys_visited(before[k], closed_before));
                    assert forall|i: int| 0 <= i < before[k].path@.len() implies visited_keys(
                        self.closed,
                    ).contains(board_key(#[trigger] path_view(before[k].path@)[i])) by {
                        assert(visited_keys(closed_before).contains(
                            board_key(path_view(before[k].path@)[i]),
                        ));
                    }
                }
            }
            assert forall|j: int, k: int|
                0 <= j < self.open@.len() && 0 <= k < self.open@.len() && j != k implies board_key(
                #[trigger] self.open@[j].state@,
            ) != board_key(#[trigger] self.open@[k].state@) by {
                if j < before.len() {
                    assert(self.open@[j] == before[j]);
                }
                if k < before.len() {
                    assert(self.open@[k] == before[k]);
                }
            }
        } else {
            assert(visited_keys(self.closed).insert(key) =~= visited_keys(self.closed));
        }
    }
}

/// A legal move that branches the search: collecting the dragons of a
/// numbered suit, a run move, a column top to a free cell, or one of the
/// first three free cells to a column.
pub open spec fn is_choice_move(b: BoardView, m: GameMove) -> bool {
    &&& apply_move(b, m) is Some
    &&& match m {
        GameMove::CollectDragons { suit } => suit == Suit::Red || suit == Suit::Green || suit
            == Suit::Black,
        GameMove::ColumnToOtherColumn { .. } => true,
        GameMove::ToTopLeftStorage { .. } => true,
        GameMove::TopLeftToColumn { top_left_index, .. } => top_left_index < 3,
        _ => false,
    }
}

pub open spec fn choice_moves(b: BoardView) -> Set<GameMove> {
    Set::new(|m: GameMove| is_choice_move(b, m))
}

/// Since `open0` and `closed0`, the children of `node` by the moves of
/// `done` have been recorded, and nothing else: their keys joined the
/// reached boards, and the open set gained those children not reached
/// before.
spec fn choices_recorded(
    node: PrioritisedGameState,
    open0: Seq<PrioritisedGameState>,
    closed0: FxHashSet<GameState>,
    open: Seq<PrioritisedGameState>,
    closed: FxHashSet<GameState>,
    done: Set<GameMove>,
) -> bool {
    &&& forall|m: GameMove| #[trigger] done.contains(m) ==> is_choice_move(node.state@, m)
    &&& forall|k: BoardKey|
        #[trigger] visited_keys(closed).contains(k) <==> (visited_keys(closed0).contains(k)
            || exists|m: GameMove| #[trigger] done.contains(m) && child_key(node.state@, m) == k)
    &&& open.len() >= open0.len()
    &&& open.subrange(0, open0.len() as int) == open0
    &&& forall|j: int|
        open0.len() <= j < open.len() ==> {
            &&& !visited_keys(closed0).contains(board_key(#[trigger] open[j].state@))
            &&& exists|m: GameMove| #[trigger] done.contains(m) && is_child_node(node, open[j], m)
        }
    &&& forall|m: GameMove|
        #[trigger] done.contains(m) && !visited_keys(closed0).contains(child_key(node.state@, m))
            ==> exists|j: int|
            open0.len() <= j < open.len() && board_key(#[trigger] open[j].state@) == child_key(
                node.state@,
                m,
            )
}

proof fn lemma_record_choice(
    node: PrioritisedGameState,
    open0: Seq<PrioritisedGameState>,
    closed0: FxHashSet<GameState>,
    open1: Seq<PrioritisedGameState>,
    closed1: FxHashSet<GameState>,
    done: Set<GameMove>,
    m: GameMove,
    open2: Seq<PrioritisedGameState>,
    closed2: FxHashSet<GameState>,
)
    requires
        choices_recorded(node, open0, closed0, open1, closed1, done),
        is_choice_move(node.state@, m),
        records_child(node, m, open1, closed1, open2, closed2),
    ensures
        choices_recorded(node, open0, closed0, open2, closed2, done.insert(m)),
{
    let d2 = done.insert(m);
    let ck = child_key(node.state@, m);
    assert forall|k: BoardKey| #[trigger] visited_keys(closed2).contains(k) <==> (visited_keys(
        closed0,
    ).contains(k) || exists|m2: GameMove| #[trigger] d2.contains(m2) && child_key(node.state@, m2)
        == k) by {
        if visited_keys(closed2).contains(k) {
            if k == ck {
                assert(d2.contains(m));
            } else {
                assert(visited_keys(closed1).contains(k));
                if !visited_keys(closed0).contains(k) {
                    let m1 = choose|m1: GameMove| #[trigger]
                        done.contains(m1) && child_key(node.state@, m1) == k;
                    assert(d2.contains(m1));
                }
            }
        }
        if exists|m2: GameMove| #[trigger] d2.contains(m2) && child_key(node.state@, m2) == k {
            let m2 = choose|m2: GameMove| #[trigger]
                d2.contains(m2) && child_key(node.state@, m2) == k;
            if m2 != m {
                assert(done.contains(m2));
                assert(visited_keys(closed1).contains(k));
            }
        }
        if visited_keys(closed0).contains(k) {
            assert(visited_keys(closed1).contains(k));
        }
    }
    assert(open2.subrange(0, open0.len() as int) =~= open0) by {
        if !visited_keys(closed1).contains(ck) {
            assert(open2.subrange(0, open1.len() as int) == open1);
            assert forall|j: int| 0 <= j < open0.len() implies open2[j] == open0[j] by {
                assert(open2.subrange(0, open1.len() as int)[j] == open2[j]);
                assert(open1.subrange(0, open0.len() as int)[j] == open1[j]);
            }
        }
    }
    assert forall|j: int| open0.len() <= j < open2.len() implies {
        &&& !visited_keys(closed0).contains(board_key(#[trigger] open2[j].state@))
        &&& exists|m2: GameMove| #[trigger] d2.contains(m2) && is_child_node(node, open2[j], m2)
    } by {
        if j < open1.len() {
            if !visited_keys(closed1).contains(ck) {
                assert(open2.subrange(0, open1.len() as int)[j] == open2[j]);
            }
            assert(open2[j] == open1[j]);
            assert(!visited_keys(closed0).contains(board_key(open1[j].state@)));
            assert(exists|m1: GameMove| #[trigger] done.contains(m1) && is_child_node(
                node,
                open1[j],
                m1,
            ));
            let m1 = choose|m1: GameMove| #[trigger] done.contains(m1) && is_child_node(
                node,
                open1[j],
                m1,
            );
            assert(d2.contains(m1));
        } else {
            assert(open2[j] == open2.last());
            assert(d2.contains(m));
            assert(!visited_keys(closed1).contains(ck));
            assert(!visited_keys(closed0).contains(ck));
        }
    }
}

proof fn lemma_path_keys_grow(n: PrioritisedGameState, c1: FxHashSet<GameState>, c2: FxHashSet<GameState>)
    requires
        path_keys_visited(n, c1),
        visited_keys(c1).subset_of(visited_keys(c2)),
    ensures
        path_keys_visited(n, c2),
{
    assert forall|i: int| 0 <= i < n.path@.len() implies visited_keys(c2).contains(
        board_key(#[trigger] path_view(n.path@)[i]),
    ) by {
        assert(visited_keys(c1).contains(board_key(path_view(n.path@)[i])));
    }
}


/// What expanding `node` did to the open and closed sets: every search
/// move's child is reached; the open set only grew, and every newly reached
/// key is the key of a new open entry, which was not reached before.
spec fn grows_by_search(
    node: PrioritisedGameState,
    open1: Seq<PrioritisedGameState>,
    closed1: FxHashSet<GameState>,
    open2: Seq<PrioritisedGameState>,
    closed2: FxHashSet<GameState>,
) -> bool {
    &&& forall|m: GameMove|
        is_search_move(node.state@, m) ==> visited_keys(closed2).contains(
            #[trigger] child_key(node.state@, m),
        )
    &&& visited_keys(closed1).subset_of(visited_keys(closed2))
    &&& open2.len() >= open1.len()
    &&& open2.subrange(0, open1.len() as int) == open1
    &&& forall|k: BoardKey|
        #[trigger] visited_keys(closed2).contains(k) && !visited_keys(closed1).contains(k)
            ==> exists|j: int|
            open1.len() <= j < open2.len() && board_key(#[trigger] open2[j].state@) == k
    &&& forall|j: int|
        open1.len() <= j < open2.len() ==> !visited_keys(closed1).contains(
            board_key(#[trigger] open2[j].state@),
        )
}

proof fn lemma_single_child_growth(
    node: PrioritisedGameState,
    m: GameMove,
    open1: Seq<PrioritisedGameState>,
    closed1: FxHashSet<GameState>,
    open2: Seq<PrioritisedGameState>,
    closed2: FxHashSet<GameState>,
)
    requires
        records_child(node, m, open1, closed1, open2, closed2),
        forall|m2: GameMove| is_search_move(node.state@, m2) ==> m2 == m,
    ensures
        grows_by_search(node, open1, closed1, open2, closed2),
{
    let ck = child_key(node.state@, m);
    if visited_keys(closed1).contains(ck) {
        assert(visited_keys(closed1).insert(ck) =~= visited_keys(closed1));
        assert(open2.subrange(0, open1.len() as int) =~= open1);
    } else {
        let j = open2.len() - 1;
        assert(open2[j] == open2.last());
        assert(board_key(open2[j].state@) == ck);
    }
}

proof fn lemma_choices_growth(
    node: PrioritisedGameState,
    open1: Seq<PrioritisedGameState>,
    closed1: FxHashSet<GameState>,
    open2: Seq<PrioritisedGameState>,
    closed2: FxHashSet<GameState>,
)
    requires
        choices_recorded(node, open1, closed1, open2, closed2, choice_moves(node.state@)),
        has_no_forced_move(node.state@),
    ensures
        grows_by_search(node, open1, closed1, open2, closed2),
{
    let b = node.state@;
    let done = choice_moves(b);
    assert forall|m: GameMove| is_search_move(b, m) implies visited_keys(closed2).contains(
        #[trigger] child_key(b, m),
    ) by {
        match m {
            GameMove::ColumnToTopRightStorage { column } => {
                assert(!b.can_column_to_foundation(column as int));
            },
            GameMove::TopLeftToTopRightStorage { top_left_index } => {},
            _ => {},
        }
        assert(done.contains(m));
    }
    assert forall|k: BoardKey|
        #[trigger] visited_keys(closed2).contains(k) && !visited_keys(closed1).contains(k)
            implies exists|j: int|
            open1.len() <= j < open2.len() && board_key(#[trigger] open2[j].state@) == k by {
        let m = choose|m: GameMove| #[trigger] done.contains(m) && child_key(b, m) == k;
        assert(done.contains(m) && !visited_keys(closed1).contains(child_key(b, m)));
    }
}

impl Game {
    /// Records the child of `node` by the choice move `m`, keeping what
    /// `choices_recorded` says, with `m` added to the moves handled.
    fn record_choice(
        &mut self,
        node: &PrioritisedGameState,
        child: GameState,
        m: GameMove,
        Ghost(initial): Ghost<BoardView>,
        Ghost(open0): Ghost<Seq<PrioritisedGameState>>,
        Ghost(closed0): Ghost<FxHashSet<GameState>>,
        Ghost(done): Ghost<Set<GameMove>>,
    )
        requires
            old(self).inv(initial),
            node_valid(*node, initial),
            path_keys_visited(*node, old(self).closed),
            is_choice_move(node.state@, m),
            apply_move(node.state@, m) == Some(child@),
            choices_recorded(*node, open0, closed0, old(self).open@, old(self).closed, done),
        ensures
            final(self).inv(initial),
            path_keys_visited(*node, final(self).closed),
            choices_recorded(*node, open0, closed0, final(self).open@, final(self).closed, done.insert(m)),
    {
        let ghost open1 = self.open@;
        let ghost closed1 = self.closed;
        self.visit_node(node, child, m, Ghost(initial));
        proof {
            lemma_record_choice(*node, open0, closed0, open1, closed1, done, m, self.open@, self.closed);
            lemma_path_keys_grow(*node, closed1, self.closed);
        }
    }

    /// Expands a board that is not solved and has no forced move: the child
    /// of every choice move is recorded, and nothing else.
    fn expand_choices(&mut self, node: &PrioritisedGameState, Ghost(initial): Ghost<BoardView>)
        requires
            old(self).inv(initial),
            node_valid(*node, initial),
            path_keys_visited(*node, old(self).closed),
        ensures
            final(self).inv(initial),
            choices_recorded(
                *node,
                old(self).open@,
                old(self).closed,
                final(self).open@,
                final(self).closed,
                choice_moves(node.state@),
            ),
            forall|m: GameMove|
                is_choice_move(node.state@, m) ==> visited_keys(final(self).closed).contains(
                    #[trigger] child_key(node.state@, m),
                ),
    {
        let ghost b = node.state@;
        let ghost open0 = self.open@;
        let ghost closed0 = self.closed;
        let ghost mut done = Set::<GameMove>::empty();
        proof {
            assert(open0.subrange(0, open0.len() as int) =~= open0);
        }
        let suits = [Suit::Red, Suit::Green, Suit::Black];
        let mut s: usize = 0;
        while s < 3
            invariant
                s <= 3,
                b == node.state@,
                suits@ == seq![Suit::Red, Suit::Green, Suit::Black],
                self.inv(initial),
                node_valid(*node, initial),
                path_keys_visited(*node, self.closed),
                choices_recorded(*node, open0, closed0, self.open@, self.closed, done),
                forall|t: int|
                    0 <= t < s && b.can_collect_dragons(#[trigger] suits@[t]) ==> done.contains(
                        GameMove::CollectDragons { suit: suits@[t] },
                    ),
            decreases 3 - s,
        {
            let suit = suits[s];
            if node.state.can_collect_dragons(suit) {
                let mut child = node.state.duplicate();
                child.collect_dragons(suit);
                let m = GameMove::CollectDragons { suit };
                self.record_choice(
                    node,
                    child,
                    m,
                    Ghost(initial),
                    Ghost(open0),
                    Ghost(closed0),
                    Ghost(done),
                );
                proof {
                    done = done.insert(m);
                }
            }
            s = s + 1;
        }
        let ghost collected_done = done;
        let mut from: usize = 0;
        while from < 8
            invariant
                from <= 8,
                b == node.state@,
                self.inv(initial),
                node_valid(*node, initial),
                path_keys_visited(*node, self.closed),
                choices_recorded(*node, open0, closed0, self.open@, self.closed, done),
                collected_done.subset_of(done),
                forall|f: usize, t: usize, z: usize|
                    f < from && #[trigger] b.can_move_run(f as int, t as int, z as int) ==> done.contains(
                        GameMove::ColumnToOtherColumn {
                            from_column_index: f,
                            to_column_index: t,
                            stack_size: z,
                        },
                    ),
            decreases 8 - from,
        {
            let mut to: usize = 0;
            while to < 8
                invariant
                    from < 8,
                    to <= 8,
                    b == node.state@,
                    self.inv(initial),
                    node_valid(*node, initial),
                    path_keys_visited(*node, self.closed),
                    choices_recorded(*node, open0, closed0, self.open@, self.closed, done),
                    collected_done.subset_of(done),
                    forall|f: usize, t: usize, z: usize|
                        (f < from || (f == from && t < to)) && #[trigger] b.can_move_run(
                            f as int,
                            t as int,
                            z as int,
                        ) ==> done.contains(
                            GameMove::ColumnToOtherColumn {
                                from_column_index: f,
                                to_column_index: t,
                                stack_size: z,
                            },
                        ),
                decreases 8 - to,
            {
                let mut size = node.state.get_column_stack_size(from);
                while size > 0
                    invariant
                        from < 8,
                        to < 8,
                        b == node.state@,
                        size <= run_length(b.columns[from as int]),
                        self.inv(initial),
                        node_valid(*node, initial),
                        path_keys_visited(*node, self.closed),
                        choices_recorded(*node, open0, closed0, self.open@, self.closed, done),
                        collected_done.subset_of(done),
                        forall|f: usize, t: usize, z: usize|
                            (f < from || (f == from && t < to) || (f == from && t == to && z
                                > size)) && #[trigger] b.can_move_run(f as int, t as int, z as int)
                                ==> done.contains(
                                GameMove::ColumnToOtherColumn {
                                    from_column_index: f,
                                    to_column_index: t,
                                    stack_size: z,
                                },
                            ),
                    decreases size,
                {
                    let p = MoveColumnParameters {
                        from_column_index: from,
                        to_column_index: to,
                        stack_size: size,
                    };
                    let m = GameMove::ColumnToOtherColumn {
                        from_column_index: from,
                        to_column_index: to,
                        stack_size: size,
                    };
                    if node.state.can_move_column_to_other_column(p) {
                        let mut child = node.state.duplicate();
                        child.move_column_to_other_column(p);
                        self.record_choice(
                            node,
                            child,
                            m,
                            Ghost(initial),
                            Ghost(open0),
                            Ghost(closed0),
                            Ghost(done),
                        );
                        proof {
                            done = done.insert(m);
                        }
                    }
                    size = size - 1;
                }
                to = to + 1;
            }
            from = from + 1;
        }
        let ghost runs_done = done;
        let mut column: usize = 0;
        while column < 8
            invariant
                column <= 8,
                b == node.state@,
                self.inv(initial),
                node_valid(*node, initial),
                path_keys_visited(*node, self.closed),
                choices_recorded(*node, open0, closed0, self.open@, self.closed, done),
                runs_done.subset_of(done),
                forall|c: usize|
                    c < column && #[trigger] b.can_column_to_free_cell(c as int) ==> done.contains(
                        GameMove::ToTopLeftStorage { column: c },
                    ),
            decreases 8 - column,
        {
            if node.state.can_move_column_to_top_left(column) {
                let mut child = node.state.duplicate();
                child.move_column_to_top_left(column);
                let m = GameMove::ToTopLeftStorage { column };
                self.record_choice(
                    node,
                    child,
                    m,
                    Ghost(initial),
                    Ghost(open0),
                    Ghost(closed0),
                    Ghost(done),
                );
                proof {
                    done = done.insert(m);
                }
            }
            column = column + 1;
        }
        let ghost to_cells_done = done;
        let mut cell: usize = 0;
        while cell < 3
            invariant
                cell <= 3,
                b == node.state@,
                self.inv(initial),
                node_valid(*node, initial),
                path_keys_visited(*node, self.closed),
                choices_recorded(*node, open0, closed0, self.open@, self.closed, done),
                to_cells_done.subset_of(done),
                forall|k: usize, c: usize|
                    k < cell && #[trigger] b.can_free_cell_to_column(k as int, c as int)
                        ==> done.contains(
                        GameMove::TopLeftToColumn { top_left_index: k, column_index: c },
                    ),
            decreases 3 - cell,
        {
            let mut column: usize = 0;
            while column < 8
                invariant
                    cell < 3,
                    column <= 8,
                    b == node.state@,
                    self.inv(initial),
                    node_valid(*node, initial),
                    path_keys_visited(*node, self.closed),
                    choices_recorded(*node, open0, closed0, self.open@, self.closed, done),
                    to_cells_done.subset_of(done),
                    forall|k: usize, c: usize|
                        (k < cell || (k == cell && c < column)) && #[trigger] b.can_free_cell_to_column(
                            k as int,
                            c as int,
                        ) ==> done.contains(
                            GameMove::TopLeftToColumn { top_left_index: k, column_index: c },
                        ),
                decreases 8 - column,
            {
                if node.state.can_move_top_left_to_column(cell, column) {
                    let mut child = node.state.duplicate();
                    child.move_top_left_to_column(cell, column);
                    let m = GameMove::TopLeftToColumn { top_left_index: cell, column_index: column };
                    self.record_choice(
                        node,
                        child,
                        m,
                        Ghost(initial),
                        Ghost(open0),
                        Ghost(closed0),
                        Ghost(done),
                    );
                    proof {
                        done = done.insert(m);
                    }
                }
                column = column + 1;
            }
            cell = cell + 1;
        }
        proof {
            assert forall|m: GameMove| is_choice_move(b, m) implies #[trigger] done.contains(m) by {
                match m {
                    GameMove::CollectDragons { suit } => {
                        if suit == Suit::Red {
                            assert(b.can_collect_dragons(suits@[0]));
                        } else if suit == Suit::Green {
                            assert(b.can_collect_dragons(suits@[1]));
                        } else {
                            assert(b.can_collect_dragons(suits@[2]));
                        }
                        assert(collected_done.contains(m));
                        assert(runs_done.contains(m));
                        assert(to_cells_done.contains(m));
                    },
                    GameMove::ColumnToOtherColumn { from_column_index, to_column_index, stack_size } => {
                        assert(b.can_move_run(
                            from_column_index as int,
                            to_column_index as int,
                            stack_size as int,
                        ));
                        assert(runs_done.contains(m));
                        assert(to_cells_done.contains(m));
                    },
                    GameMove::ToTopLeftStorage { column } => {
                        assert(b.can_column_to_free_cell(column as int));
                        assert(to_cells_done.contains(m));
                    },
                    GameMove::TopLeftToColumn { top_left_index, column_index } => {
                        assert(b.can_free_cell_to_column(top_left_index as int, column_index as int));
                    },
                    _ => {},
                }
            }
            assert(done =~= choice_moves(b));
            assert forall|m: GameMove| is_choice_move(b, m) implies visited_keys(
                self.closed,
            ).contains(#[trigger] child_key(b, m)) by {
                assert(done.contains(m));
            }
        }
    }

    /// Expands one board. A solved board ends the search with its own
    /// history. Otherwise a card that can go to the foundation must: the
    /// first such column, else the first of the three free cells that can,
    /// gives the one child. Failing both, every choice move gives a child.
    fn expand_node(&mut self, node: PrioritisedGameState, Ghost(initial): Ghost<BoardView>) -> (r:
        Expansion)
        requires
            old(self).inv(initial),
            node_valid(node, initial),
            path_keys_visited(node, old(self).closed),
        ensures
            final(self).inv(initial),
            node.state@.is_solved() ==> {
                &&& final(self).open@ == old(self).open@
                &&& final(self).closed == old(self).closed
            },
            node.state@.is_solved() && node.state@.is_won() ==> {
                &&& r is Solved
                &&& r->steps@.map_values(|p: (GameState, GameMove)| p.0@) == path_view(node.path@)
                &&& r->steps@.map_values(|p: (GameState, GameMove)| p.1) == node.moves@
                &&& is_solution(initial, r->steps@)
            },
            node.state@.is_solved() && !node.state@.is_won() ==> r is Inconsistent,
            !node.state@.is_solved() ==> r is Continue,
            !node.state@.is_solved() ==> grows_by_search(
                node,
                old(self).open@,
                old(self).closed,
                final(self).open@,
                final(self).closed,
            ),
            forall|i: int|
                #![trigger is_forced_column(node.state@, i)]
                !node.state@.is_solved() && is_forced_column(node.state@, i) ==> records_child(
                    node,
                    GameMove::ColumnToTopRightStorage { column: i as usize },
                    old(self).open@,
                    old(self).closed,
                    final(self).open@,
                    final(self).closed,
                ),
            forall|k: int|
                #![trigger is_forced_cell(node.state@, k)]
                !node.state@.is_solved() && is_forced_cell(node.state@, k) ==> records_child(
                    node,
                    GameMove::TopLeftToTopRightStorage { top_left_index: k as usize },
                    old(self).open@,
                    old(self).closed,
                    final(self).open@,
                    final(self).closed,
                ),
            !node.state@.is_solved() && has_no_forced_move(node.state@) ==> choices_recorded(
                node,
                old(self).open@,
                old(self).closed,
                final(self).open@,
                final(self).closed,
                choice_moves(node.state@),
            ),
    {
        if node.state.columns_empty() {
            if !node.state.has_won_layout() {
                return Expansion::Inconsistent;
            }
            let steps = zip_history(&node.path, &node.moves);
            proof {
                let sv = steps@.map_values(|p: (GameState, GameMove)| p.0@);
                assert(sv[sv.len() - 1] == steps@.last().0@);
                assert(sv[sv.len() - 1] == path_view(node.path@)[sv.len() - 1]);
            }
            return Expansion::Solved { steps };
        }
        let mut i: usize = 0;
        while i < 8
            invariant
                self.inv(initial),
                node_valid(node, initial),
                path_keys_visited(node, self.closed),
                self.open@ == old(self).open@,
                self.closed == old(self).closed,
                !node.state@.is_solved(),
                forall|j: int| 0 <= j < i ==> !node.state@.can_column_to_foundation(j),
            decreases 8 - i,
        {
            if node.state.can_move_column_to_top_right_storage(i) {
                let mut child = node.state.duplicate();
                child.move_column_to_top_right_storage(i);
                self.visit_node(
                    &node,
                    child,
                    GameMove::ColumnToTopRightStorage { column: i },
                    Ghost(initial),
                );
                proof {
                    assert forall|j: int| #[trigger]
                        is_forced_column(node.state@, j) implies j == i as int by {
                        if j < i {
                        } else if j > i {
                            assert(!node.state@.can_column_to_foundation(i as int));
                        }
                    }
                    assert(!is_forced_cell(node.state@, 0));
                    let m = GameMove::ColumnToTopRightStorage { column: i };
                    assert(is_forced_column(node.state@, i as int));
                    assert forall|m2: GameMove| is_search_move(node.state@, m2) implies m2 == m by {
                        match m2 {
                            GameMove::ColumnToTopRightStorage { column } => {
                                assert(is_forced_column(node.state@, column as int));
                                assert(column as int == i as int);
                            },
                            GameMove::TopLeftToTopRightStorage { top_left_index } => {
                                assert(node.state@.can_column_to_foundation(i as int));
                            },
                            _ => {
                                assert(node.state@.can_column_to_foundation(i as int));
                            },
                        }
                    }
                    lemma_single_child_growth(
                        node,
                        m,
                        old(self).open@,
                        old(self).closed,
                        self.open@,
                        self.closed,
                    );
                }
                return Expansion::Continue;
            }
            i = i + 1;
        }
        let mut k: usize = 0;
        while k < 3
            invariant
                self.inv(initial),
                node_valid(node, initial),
                path_keys_visited(node, self.closed),
                self.open@ == old(self).open@,
                self.closed == old(self).closed,
                !node.state@.is_solved(),
                forall|j: int| 0 <= j < 8 ==> !node.state@.can_column_to_foundation(j),
                forall|j: int| 0 <= j < k ==> !node.state@.can_free_cell_to_foundation(j),
            decreases 3 - k,
        {
            if node.state.can_move_top_left_to_top_right_storage(k) {
                let mut child = node.state.duplicate();
                child.move_top_left_to_top_right_storage(k);
                self.visit_node(
                    &node,
                    child,
                    GameMove::TopLeftToTopRightStorage { top_left_index: k },
                    Ghost(initial),
                );
                proof {
                    assert forall|j: int| #[trigger]
                        is_forced_cell(node.state@, j) implies j == k as int by {
                        if j > k {
                            assert(!node.state@.can_free_cell_to_foundation(k as int));
                        }
                    }
                    let m = GameMove::TopLeftToTopRightStorage { top_left_index: k };
                    assert(is_forced_cell(node.state@, k as int));
                    assert forall|m2: GameMove| is_search_move(node.state@, m2) implies m2 == m by {
                        match m2 {
                            GameMove::ColumnToTopRightStorage { column } => {},
                            GameMove::TopLeftToTopRightStorage { top_left_index } => {
                                assert(is_forced_cell(node.state@, top_left_index as int));
                                assert(top_left_index as int == k as int);
                            },
                            _ => {
                                assert(node.state@.can_free_cell_to_foundation(k as int));
                            },
                        }
                    }
                    lemma_single_child_growth(
                        node,
                        m,
                        old(self).open@,
                        old(self).closed,
                        self.open@,
                        self.closed,
                    );
                }
                return Expansion::Continue;
            }
            k = k + 1;
        }
        self.expand_choices(&node, Ghost(initial));
        proof {
            lemma_choices_growth(node, old(self).open@, old(self).closed, self.open@, self.closed);
        }
        Expansion::Continue
    }
}

/// On a board one foundation move from solved, that move takes the first
/// column whose top card fits the foundation, and it leads to a board that
/// is not equal to the first one.
proof fn lemma_one_move_is_forced(b: BoardView) -> (i: int)
    requires
        one_foundation_move_from_solved(b),
        b.columns.len() == 8,
    ensures
        is_forced_column(b, i),
        b.after_column_to_foundation(i).is_solved(),
        board_key(b.after_column_to_foundation(i)) != board_key(b),
{
    broadcast use vstd::seq_lib::group_to_multiset_ensures;

    if exists|k: int|
        b.can_free_cell_to_foundation(k) && (#[trigger] b.after_free_cell_to_foundation(
            k,
        )).is_solved() {
        let k = choose|k: int|
            b.can_free_cell_to_foundation(k) && (#[trigger] b.after_free_cell_to_foundation(
                k,
            )).is_solved();
        assert(b.after_free_cell_to_foundation(k).columns == b.columns);
        assert(false);
    }
    let i = choose|i: int|
        b.can_column_to_foundation(i) && (#[trigger] b.after_column_to_foundation(i)).is_solved();
    let a = b.after_column_to_foundation(i);
    assert forall|j: int| 0 <= j < i implies !b.can_column_to_foundation(j) by {
        assert(a.columns[j] == b.columns[j]);
    }
    assert(b.columns.contains(b.columns[i]));
    assert(!a.columns.contains(b.columns[i]));
    assert(b.columns.to_multiset().count(b.columns[i]) > 0);
    assert(a.columns.to_multiset().count(b.columns[i]) == 0);
    i
}

impl Game {
    /// Searches for a solution from `state`, expanding at most
    /// `max_expansions` boards. A solution starts at `state` with `Start`,
    /// each later board follows from the one before by its move, no board
    /// repeats, and the last board is solved. `None` means that none was
    /// found: either the search was abandoned on an inconsistent board
    /// (`last_search_abandoned`), or every expanded board has all its search
    /// moves' boards reached, and the boards still open are the only reached
    /// ones not expanded, which happens only when none is left or the budget
    /// is spent. Any earlier search of this engine is discarded.
    pub fn play_with_limit(&mut self, state: GameState, max_expansions: usize) -> (r: Option<
        Vec<(GameState, GameMove)>,
    >)
        ensures
            r is Some ==> is_solution(state@, r.unwrap()@),
            r is Some ==> has_distinct_keys(
                r.unwrap()@.map_values(|p: (GameState, GameMove)| p.0@),
            ),
            state@.is_solved() && state@.is_won() && max_expansions >= 1 ==> r is Some
                && r.unwrap()@.len() == 1,
            one_foundation_move_from_solved(state@) && is_complete_deal(state@) && max_expansions
                >= 2 ==> {
                &&& r is Some
                &&& r.unwrap()@.len() == 2
                &&& r.unwrap()@[1].1 is ColumnToTopRightStorage
            },
            is_complete_deal(state@) && r is Some ==> {
                &&& r.unwrap()@.last().0@.foundation == seq![1u8, 9u8, 9u8, 9u8]
                &&& r.unwrap()@.last().0@.free_cells == seq![face_down(), face_down(), face_down()]
            },
            final(self).abandoned() ==> r is None && !is_complete_deal(state@),
            r is None && !final(self).abandoned() ==> {
                &&& final(self).reached().contains(board_key(state@))
                &&& search_closed_over(final(self).expanded_keys(), final(self).reached())
                &&& final(self).expanded_keys().finite()
                &&& final(self).expanded_keys().len() == final(self).expanded()
                &&& forall|k: BoardKey|
                    #[trigger] final(self).reached().contains(k) ==> final(self).open_keys().contains(
                        k,
                    ) || final(self).expanded_keys().contains(k)
                &&& final(self).open_len() == 0 || final(self).expanded() == max_expansions
            },
    {
        let ghost initial = state@;
        self.initialise(state);
        let mut fuel = max_expansions;
        let ghost mut round: int = 0;
        let ghost mut exp: Set<BoardKey> = Set::empty();
        while fuel > 0 && !self.open.is_empty()
            invariant
                self.inv(initial),
                initial == state@,
                initial.columns.len() == 8,
                fuel <= max_expansions,
                exp.finite(),
                exp.len() == max_expansions - fuel,
                search_closed_over(exp, visited_keys(self.closed)),
                visited_keys(self.closed).contains(board_key(initial)),
                forall|k: BoardKey|
                    #[trigger] visited_keys(self.closed).contains(k) ==> exp.contains(k) || exists|
                        j: int,
                    | 0 <= j < self.open@.len() && board_key(#[trigger] self.open@[j].state@) == k,
                forall|j: int|
                    0 <= j < self.open@.len() ==> !exp.contains(
                        board_key(#[trigger] self.open@[j].state@),
                    ),
                round >= 0,
                round == 0 ==> {
                    &&& self.open@.len() == 1
                    &&& self.open@[0].state@ == initial
                    &&& self.open@[0].path@.len() == 1
                    &&& visited_keys(self.closed) == set![board_key(initial)]
                    &&& fuel == max_expansions
                },
                round >= 1 ==> !(initial.is_solved() && initial.is_won()),
                round == 1 && one_foundation_move_from_solved(initial) && is_complete_deal(
                    initial,
                ) ==> {
                    &&& self.open@.len() == 1
                    &&& self.open@[0].state@.is_solved()
                    &&& self.open@[0].path@.len() == 2
                    &&& self.open@[0].moves@[1] is ColumnToTopRightStorage
                    &&& fuel == max_expansions - 1
                },
                round >= 2 ==> !(one_foundation_move_from_solved(initial) && is_complete_deal(
                    initial,
                )),
            decreases fuel,
        {
            let ghost open_before = self.open@;
            let ghost closed_before = self.closed;
            let head = self.pop_best(Ghost(initial));
            let ghost head_index = choose|k: int|
                0 <= k < open_before.len() && open_before[k] == head;
            proof {
                assert(node_valid(open_before[head_index], initial));
                assert(path_keys_visited(open_before[head_index], closed_before));
                if open_before.len() == 1 {
                    assert(head == open_before[0]);
                }
                if is_complete_deal(initial) {
                    let pv = path_view(head.path@);
                    lemma_history_stays_complete(initial, pv, head.moves@);
                    assert(pv[pv.len() - 1] == head.state@);
                    if head.state@.is_solved() {
                        lemma_solved_board(head.state@);
                    }
                }
            }
            let ghost open_popped = self.open@;
            let ghost head_state = head.state@;
            let ghost head_node = head;
            let ghost head_moves = head.moves@;
            let outcome = self.expand_node(head, Ghost(initial));
            match outcome {
                Expansion::Solved { steps } => {
                    proof {
                        if is_complete_deal(initial) {
                            lemma_solution_ends_won(initial, steps@);
                        }
                        let mv = steps@.map_values(|p: (GameState, GameMove)| p.1);
                        if steps@.len() >= 2 {
                            assert(mv[1] == steps@[1].1);
                        }
                    }
                    self.abandoned = false;
                    return Some(steps);
                },
                Expansion::Inconsistent => {
                    self.expanded = max_expansions - fuel;
                    self.abandoned = true;
                    return None;
                },
                Expansion::Continue => {},
            }
            proof {
                let hk = board_key(head_state);
                let c2 = visited_keys(self.closed);
                let c0 = visited_keys(closed_before);
                assert(!exp.contains(hk));
                assert(c0.contains(hk));
                let exp2 = exp.insert(hk);
                assert(exp2.len() == exp.len() + 1);
                assert(search_closed_over(exp2, c2)) by {
                    assert forall|k: BoardKey| #[trigger] exp2.contains(k) implies {
                        &&& c2.contains(k)
                        &&& exists|b: BoardView|
                            #![trigger board_key(b)]
                            board_key(b) == k && !b.is_solved() && forall|m: GameMove|
                                is_search_move(b, m) ==> c2.contains(#[trigger] child_key(b, m))
                    } by {
                        if k == hk {
                            assert(grows_by_search(
                                head_node,
                                open_popped,
                                closed_before,
                                self.open@,
                                self.closed,
                            ));
                        } else {
                            assert(exp.contains(k));
                            let b = choose|b: BoardView|
                                #![trigger board_key(b)]
                                board_key(b) == k && !b.is_solved() && forall|m: GameMove|
                                    is_search_move(b, m) ==> c0.contains(
                                        #[trigger] child_key(b, m),
                                    );
                            assert forall|m: GameMove| is_search_move(b, m) implies c2.contains(
                                #[trigger] child_key(b, m),
                            ) by {
                                assert(c0.contains(child_key(b, m)));
                            }
                        }
                    }
                }
                assert forall|k: BoardKey| #[trigger] c2.contains(k) implies exp2.contains(k)
                    || exists|j: int|
                    0 <= j < self.open@.len() && board_key(#[trigger] self.open@[j].state@)
                        == k by {
                    if c0.contains(k) && !exp.contains(k) {
                        let j0 = choose|j: int|
                            0 <= j < open_before.len() && board_key(
                                #[trigger] open_before[j].state@,
                            ) == k;
                        if open_before[j0] != head_node {
                            assert(open_popped.contains(open_before[j0]));
                            let j1 = choose|j1: int|
                                0 <= j1 < open_popped.len() && open_popped[j1]
                                    == open_before[j0];
                            assert(self.open@.subrange(0, open_popped.len() as int)[j1]
                                == self.open@[j1]);
                            assert(board_key(self.open@[j1].state@) == k);
                        }
                    }
                }
                assert forall|j: int| 0 <= j < self.open@.len() implies !exp2.contains(
                    board_key(#[trigger] self.open@[j].state@),
                ) by {
                    if j < open_popped.len() {
                        assert(self.open@.subrange(0, open_popped.len() as int)[j]
                            == self.open@[j]);
                        assert(open_before.contains(open_popped[j]));
                        let j0 = choose|j0: int|
                            0 <= j0 < open_before.len() && open_before[j0] == open_popped[j];
                        assert(!exp.contains(board_key(open_before[j0].state@)));
                        assert(board_key(open_popped[j].state@) != hk);
                    } else {
                        assert(!c0.contains(board_key(self.open@[j].state@)));
                    }
                }
                exp = exp2;
                if round == 0 && one_foundation_move_from_solved(initial) && is_complete_deal(
                    initial,
                ) {
                    let i = lemma_one_move_is_forced(initial);
                    assert(is_forced_column(head_state, i));
                    assert(!visited_keys(closed_before).contains(
                        board_key(head_state.after_column_to_foundation(i)),
                    ));
                    assert(self.open@[0] == self.open@.last());
                    assert(head_moves.len() == 1);
                    assert(self.open@[0].moves@ == head_moves.push(
                        GameMove::ColumnToTopRightStorage { column: i as usize },
                    ));
                }
                round = round + 1;
            }
            fuel = fuel - 1;
        }
        self.expanded = max_expansions - fuel;
        self.expanded_keys = Ghost(exp);
        self.abandoned = false;
        proof {
            assert forall|k: BoardKey| #[trigger] self.reached().contains(k) implies self.open_keys().contains(
                k,
            ) || self.expanded_keys().contains(k) by {
                if !exp.contains(k) {
                    let j = choose|j: int|
                        0 <= j < self.open@.len() && board_key(#[trigger] self.open@[j].state@)
                            == k;
                    assert(self.open_keys().contains(k));
                }
            }
        }
        None
    }

    /// Searches for a solution from `state`, as `play_with_limit` does, with
    /// no bound below the largest `usize`.
    pub fn play(&mut self, state: GameState) -> (r: Option<Vec<(GameState, GameMove)>>)
        ensures
            r is Some ==> is_solution(state@, r.unwrap()@),
            r is Some ==> has_distinct_keys(
                r.unwrap()@.map_values(|p: (GameState, GameMove)| p.0@),
            ),
            state@.is_solved() && state@.is_won() ==> r is Some && r.unwrap()@.len() == 1,
            one_foundation_move_from_solved(state@) && is_complete_deal(state@) ==> {
                &&& r is Some
                &&& r.unwrap()@.len() == 2
                &&& r.unwrap()@[1].1 is ColumnToTopRightStorage
            },
            is_complete_deal(state@) && r is Some ==> {
                &&& r.unwrap()@.last().0@.foundation == seq![1u8, 9u8, 9u8, 9u8]
                &&& r.unwrap()@.last().0@.free_cells == seq![face_down(), face_down(), face_down()]
            },
            final(self).abandoned() ==> r is None && !is_complete_deal(state@),
            r is None && !final(self).abandoned() ==> {
                &&& final(self).reached().contains(board_key(state@))
                &&& search_closed_over(final(self).expanded_keys(), final(self).reached())
                &&& final(self).expanded_keys().finite()
                &&& final(self).expanded_keys().len() == final(self).expanded()
                &&& forall|k: BoardKey|
                    #[trigger] final(self).reached().contains(k) ==> final(self).open_keys().contains(
                        k,
                    ) || final(self).expanded_keys().contains(k)
                &&& final(self).open_len() == 0 || final(self).expanded() == usize::MAX
            },
    {
        self.play_with_limit(state, usize::MAX)
    }
}

/// No legal move leaves more than three cards in the free cells.
pub proof fn lemma_free_cells_stay_bounded(b: BoardView, m: GameMove)
    requires
        b.free_cells.len() <= 3,
        apply_move(b, m) is Some,
    ensures
        apply_move(b, m).unwrap().free_cells.len() <= 3,
{
    if let GameMove::CollectDragons { suit } = m {
        lemma_remove_dragons_len(b.free_cells, suit);
    }
}

/// Boards with the same key are solved together: the key holds the
/// columns as a multiset.
pub proof fn lemma_key_decides_solved(b: BoardView, c: BoardView)
    requires
        board_key(b) == board_key(c),
        b.columns.len() == 8,
        c.columns.len() == 8,
    ensures
        b.is_solved() == c.is_solved(),
{
    broadcast use vstd::seq_lib::group_to_multiset_ensures;

    if !b.is_solved() {
        let i = choose|i: int| 0 <= i < b.columns.len() && (#[trigger] b.columns[i]).len() != 0;
        assert(b.columns.contains(b.columns[i]));
        assert(c.columns.to_multiset().count(b.columns[i]) > 0);
        assert(c.columns.contains(b.columns[i]));
    }
    if !c.is_solved() {
        let i = choose|i: int| 0 <= i < c.columns.len() && (#[trigger] c.columns[i]).len() != 0;
        assert(c.columns.contains(c.columns[i]));
        assert(b.columns.to_multiset().count(c.columns[i]) > 0);
        assert(b.columns.contains(c.columns[i]));
    }
}

} // verus!
