use crate::board::{
    lemma_move_back, lemma_next_on_board, next_cell_index, next_index, on_board, opposite,
    Direction,
};
use vstd::prelude::*;
use vstd::seq_lib::seq_to_set_is_finite;
use vstd::set_lib::{lemma_int_range, lemma_len_subset, set_int_range};

verus! {

/// Where a game stands once it has been started.
#[derive(PartialEq, Eq, Structural, Clone, Copy, Debug)]
pub enum GameStatus {
    Won,
    Lost,
    Played,
}

/// One segment of the snake: the index of the board cell it covers.
#[derive(PartialEq, Eq, Structural, Clone, Copy, Debug)]
pub struct SnakeCell(pub usize);

/// The cell indices of a run of segments.
pub open spec fn cells_of(body: Seq<SnakeCell>) -> Seq<int> {
    body.map_values(|c: SnakeCell| c.0 as int)
}

struct Snake {
    body: Vec<SnakeCell>,
    direction: Direction,
}

impl Snake {
    /// A snake of `len` segments lying leftwards from `spawn_index`, heading right.
    fn new(spawn_index: usize, len: usize) -> (s: Snake)
        requires
            len <= spawn_index + 1,
        ensures
            s.body@.len() == len,
            forall|i: int| 0 <= i < len ==> s.body@[i].0 == spawn_index - i,
            s.direction == Direction::Right,
    {
        let mut body: Vec<SnakeCell> = Vec::new();
        let mut i: usize = 0;
        while i < len
            invariant
                i <= len,
                len <= spawn_index + 1,
                body@.len() == i,
                forall|j: int| 0 <= j < i ==> body@[j].0 == spawn_index - j,
            decreases len - i,
        {
            body.push(SnakeCell(spawn_index - i));
            i += 1;
        }
        Snake { body, direction: Direction::Right }
    }
}

/// The abstract state of a game.
pub struct WorldView {
    /// Cells per row and per column.
    pub width: int,
    /// Number of cells on the board.
    pub size: int,
    /// The snake's cells, head first.
    pub body: Seq<int>,
    /// The direction of travel.
    pub direction: Direction,
    /// The next head cell, worked out when the direction last changed.
    pub pending: Option<int>,
    /// The cell that holds the reward, if one is placed.
    pub reward: Option<int>,
    /// `None` until the game is started.
    pub status: Option<GameStatus>,
    /// Rewards eaten so far.
    pub points: int,
}

/// The message shown for each status.
pub open spec fn status_text(status: Option<GameStatus>) -> Seq<char> {
    match status {
        Some(GameStatus::Won) => "You have won!"@,
        Some(GameStatus::Lost) => "You have lost!"@,
        Some(GameStatus::Played) => "Playing"@,
        None => "No Status"@,
    }
}

impl WorldView {
    /// The state invariant.
    pub open spec fn wf(self) -> bool {
        &&& self.width >= 1
        &&& self.size == self.width * self.width
        &&& 2 <= self.body.len() <= self.size
        &&& forall|i: int| 0 <= i < self.body.len() ==> on_board(self.width, #[trigger] self.body[i])
        &&& (self.pending matches Some(c) ==> c == self.next_head())
        &&& (self.reward matches Some(r) ==> on_board(self.width, r) && !self.body.contains(r))
        &&& (self.status == Some(GameStatus::Won) ==> self.reward is None)
        &&& 0 <= self.points < self.body.len()
    }

    /// The game is over, won or lost.
    pub open spec fn is_over(self) -> bool {
        self.status == Some(GameStatus::Won) || self.status == Some(GameStatus::Lost)
    }

    /// The cell the head moves onto at the next step.
    pub open spec fn next_head(self) -> int {
        next_index(self.width, self.body[0], self.direction)
    }

    /// The body after one move: the new head, then every segment following
    /// the one ahead of it, the last one left behind.
    pub open spec fn moved_body(self) -> Seq<int> {
        seq![self.next_head()] + self.body.drop_last()
    }

    /// The next head lands on a segment of the moved body other than the head.
    pub open spec fn hits_itself(self) -> bool {
        self.body.drop_last().contains(self.next_head())
    }

    /// The state after one step.
    pub open spec fn stepped(self) -> WorldView {
        if self.status != Some(GameStatus::Played) {
            self
        } else {
            let head = self.next_head();
            let moved = WorldView { body: self.moved_body(), pending: None, ..self };
            if self.hits_itself() {
                WorldView { status: Some(GameStatus::Lost), ..moved }
            } else if self.reward == Some(head) {
                if self.body.len() < self.size {
                    WorldView {
                        body: moved.body.push(self.body[self.body.len() - 2]),
                        reward: None,
                        points: self.points + 1,
                        ..moved
                    }
                } else {
                    WorldView { reward: None, status: Some(GameStatus::Won), ..moved }
                }
            } else {
                moved
            }
        }
    }

    /// The state after asking to travel in `direction`: refused when that
    /// would turn the head back onto the second segment.
    pub open spec fn turned(self, direction: Direction) -> WorldView {
        let cell = next_index(self.width, self.body[0], direction);
        if cell == self.body[1] {
            self
        } else {
            WorldView { direction, pending: Some(cell), ..self }
        }
    }

    /// The state after starting the game; only a game not yet started changes.
    pub open spec fn started(self) -> WorldView {
        if self.status is None {
            WorldView { status: Some(GameStatus::Played), ..self }
        } else {
            self
        }
    }

    /// A reward is to be placed: none is on the board and the game is not over.
    pub open spec fn needs_reward(self) -> bool {
        self.reward is None && !self.is_over()
    }

    /// `cell` may take the reward: one is needed and `cell` is a free cell of the board.
    pub open spec fn accepts_reward(self, cell: int) -> bool {
        self.needs_reward() && on_board(self.width, cell) && !self.body.contains(cell)
    }
}

/// The whole state of one game: the board, the snake, the reward and the score.
pub struct World {
    width: usize,
    size: usize,
    snake: Snake,
    next_cell: Option<SnakeCell>,
    reward_cell: Option<usize>,
    status: Option<GameStatus>,
    points: usize,
}

impl View for World {
    type V = WorldView;

    closed spec fn view(&self) -> WorldView {
        WorldView {
            width: self.width as int,
            size: self.size as int,
            body: cells_of(self.snake.body@),
            direction: self.snake.direction,
            pending: match self.next_cell {
                Some(c) => Some(c.0 as int),
                None => None,
            },
            reward: match self.reward_cell {
                Some(r) => Some(r as int),
                None => None,
            },
            status: self.status,
            points: self.points as int,
        }
    }
}

/// Whether `cell` is among the segments from position `from` on.
fn holds_cell(body: &Vec<SnakeCell>, from: usize, cell: usize) -> (r: bool)
    requires
        from <= body@.len(),
    ensures
        r == cells_of(body@).subrange(from as int, body@.len() as int).contains(cell as int),
{
    let ghost tail = cells_of(body@).subrange(from as int, body@.len() as int);
    let mut i: usize = from;
    while i < body.len()
        invariant
            from <= i <= body@.len(),
            tail == cells_of(body@).subrange(from as int, body@.len() as int),
            forall|j: int| from <= j < i ==> body@[j].0 != cell,
        decreases body@.len() - i,
    {
        if body[i].0 == cell {
            assert(tail[i - from] == cell as int);
            return true;
        }
        i += 1;
    }
    assert(!tail.contains(cell as int)) by {
        assert forall|k: int| 0 <= k < tail.len() implies tail[k] != cell as int by {
            assert(tail[k] == body@[k + from].0 as int);
        }
    }
    false
}

impl World {
    /// A game on a `width` x `width` board with a three-segment snake whose
    /// head is at `snake_idx`, heading right; no reward placed yet, not started.
    pub fn new(width: usize, snake_idx: usize) -> (w: World)
        requires
            width * width <= usize::MAX,
            snake_idx < width * width,
            snake_idx % width >= 2,
        ensures
            w@.wf(),
            w@.width == width,
            w@.body == seq![snake_idx as int, snake_idx - 1, snake_idx - 2],
            w@.direction == Direction::Right,
            w@.pending is None,
            w@.reward is None,
            w@.status is None,
            w@.points == 0,
    {
        assert(width >= 3) by {
            assert(snake_idx % width < width) by (nonlinear_arith)
                requires
                    width > 0,
            ;
        }
        assert(snake_idx % width <= snake_idx) by (nonlinear_arith)
            requires
                width > 0,
        ;
        assert(width * width >= 9) by (nonlinear_arith)
            requires
                width >= 3,
        ;
        let snake = Snake::new(snake_idx, 3);
        let size = width * width;
        let w = World {
            width,
            size,
            snake,
            next_cell: None,
            reward_cell: None,
            status: None,
            points: 0,
        };
        assert(w@.body =~= seq![snake_idx as int, snake_idx - 1, snake_idx - 2]);
        w
    }

    /// Cells per row and per column.
    pub fn width(&self) -> (r: usize)
        ensures
            r == self@.width,
    {
        self.width
    }

    /// Rewards eaten so far.
    pub fn points(&self) -> (r: usize)
        ensures
            r == self@.points,
    {
        self.points
    }

    /// The cell that holds the reward, if one is placed.
    pub fn reward_cell(&self) -> (r: Option<usize>)
        ensures
            r matches Some(c) ==> self@.reward == Some(c as int),
            r is None ==> self@.reward is None,
    {
        self.reward_cell
    }

    /// The cell under the snake's head.
    pub fn snake_head_idx(&self) -> (r: usize)
        requires
            self@.wf(),
        ensures
            r == self@.body[0],
    {
        self.snake.body[0].0
    }

    /// Starts a game that has not been started; does nothing otherwise.
    pub fn start_game(&mut self)
        requires
            old(self)@.wf(),
        ensures
            final(self)@ == old(self)@.started(),
            final(self)@.wf(),
    {
        if self.status.is_none() {
            self.status = Some(GameStatus::Played);
        }
    }

    /// Where the game stands; `None` before it is started.
    pub fn game_status(&self) -> (r: Option<GameStatus>)
        ensures
            r == self@.status,
    {
        self.status
    }

    /// The status as a message for the player.
    pub fn game_status_text(&self) -> (r: String)
        ensures
            r@ == status_text(self@.status),
    {
        match self.status {
            Some(GameStatus::Won) => "You have won!".to_string(),
            Some(GameStatus::Lost) => "You have lost!".to_string(),
            Some(GameStatus::Played) => "Playing".to_string(),
            None => "No Status".to_string(),
        }
    }

    /// Asks the snake to travel in `direction` from the next step on; a
    /// request that would turn the head back onto the second segment is ignored.
    pub fn change_snake_dir(&mut self, direction: Direction)
        requires
            old(self)@.wf(),
        ensures
            final(self)@ == old(self)@.turned(direction),
            final(self)@.wf(),
    {
        let next_cell = self.gen_next_snake_cell(&direction);
        if self.snake.body[1].0 == next_cell.0 {
            return;
        }
        self.next_cell = Some(next_cell);
        self.snake.direction = direction;
    }

    /// Number of segments.
    pub fn snake_length(&self) -> (r: usize)
        ensures
            r == self@.body.len(),
    {
        self.snake.body.len()
    }

    /// The segments, head first, as a read-only view.
    pub fn snake_cells(&self) -> (r: &[SnakeCell])
        ensures
            cells_of(r@) == self@.body,
    {
        self.snake.body.as_slice()
    }

    /// Advances a game in play by one move: the head moves on, each segment
    /// follows the one ahead of it, and then the snake may hit itself, eat
    /// the reward and grow, or fill the board and win. A game not in play is
    /// left as it is.
    pub fn step(&mut self)
        requires
            old(self)@.wf(),
        ensures
            final(self)@ == old(self)@.stepped(),
            final(self)@.wf(),
    {
        match self.status {
            Some(GameStatus::Played) => {},
            _ => {
                return;
            },
        }
        let ghost start = self@;
        let head = match self.next_cell {
            Some(cell) => cell,
            None => self.gen_next_snake_cell(&self.snake.direction),
        };
        self.next_cell = None;
        let len = self.snake.body.len();
        self.snake.body.insert(0, head);
        let _ = self.snake.body.pop();
        assert(cells_of(self.snake.body@) =~= start.moved_body());
        assert(cells_of(self.snake.body@).subrange(1, len as int) =~= start.body.drop_last());
        if holds_cell(&self.snake.body, 1, head.0) {
            self.status = Some(GameStatus::Lost);
            return;
        }
        let eaten = match self.reward_cell {
            Some(r) => r == head.0,
            None => false,
        };
        if eaten {
            if len < self.size {
                self.points = self.points + 1;
                let tail = self.snake.body[len - 1];
                self.snake.body.push(tail);
                assert(cells_of(self.snake.body@) =~= start.moved_body().push(
                    start.body[len - 2],
                ));
            } else {
                self.status = Some(GameStatus::Won);
            }
            self.reward_cell = None;
        }
        proof {
            lemma_stepped_wf(start);
        }
    }

    /// Whether a reward is to be placed: none is on the board and the game is not over.
    pub fn needs_reward(&self) -> (r: bool)
        ensures
            r == self@.needs_reward(),
    {
        match self.status {
            Some(GameStatus::Won) | Some(GameStatus::Lost) => false,
            _ => self.reward_cell.is_none(),
        }
    }

    /// Offers `candidate` as the reward cell. It is taken, and `true`
    /// returned, when a reward is needed and `candidate` is a free cell of the
    /// board; otherwise nothing changes.
    pub fn offer_reward_cell(&mut self, candidate: usize) -> (r: bool)
        requires
            old(self)@.wf(),
        ensures
            r == old(self)@.accepts_reward(candidate as int),
            r ==> final(self)@ == (WorldView { reward: Some(candidate as int), ..old(self)@ }),
            !r ==> final(self)@ == old(self)@,
            final(self)@.wf(),
    {
        if !self.needs_reward() || candidate >= self.size {
            return false;
        }
        if holds_cell(&self.snake.body, 0, candidate) {
            return false;
        }
        assert(cells_of(self.snake.body@).subrange(0, self.snake.body@.len() as int)
            =~= self@.body);
        self.reward_cell = Some(candidate);
        true
    }

    /// The cell one move from the head in `direction`.
    fn gen_next_snake_cell(&self, direction: &Direction) -> (r: SnakeCell)
        requires
            self@.wf(),
        ensures
            r.0 == next_index(self@.width, self@.body[0], *direction),
    {
        proof {
            assert(on_board(self@.width, self@.body[0]));
        }
        SnakeCell(next_cell_index(self.width, self.snake.body[0].0, *direction))
    }
}

/// Every step keeps the state invariant.
pub proof fn lemma_stepped_wf(s: WorldView)
    requires
        s.wf(),
    ensures
        s.stepped().wf(),
{
    if s.status == Some(GameStatus::Played) {
        let t = s.stepped();
        let head = s.next_head();
        lemma_next_on_board(s.width, s.body[0], s.direction);
        let moved = s.moved_body();
        assert forall|i: int| 0 <= i < moved.len() implies on_board(s.width, #[trigger] moved[i]) by {
            if i > 0 {
                assert(moved[i] == s.body[i - 1]);
            }
        }
        if !s.hits_itself() && s.reward == Some(head) && s.body.len() < s.size {
            let grown = moved.push(s.body[s.body.len() - 2]);
            assert forall|i: int| 0 <= i < grown.len() implies on_board(s.width, #[trigger] grown[i]) by {
                if i < moved.len() {
                    assert(grown[i] == moved[i]);
                }
            }
        }
        if let Some(r) = s.reward {
            assert(!moved.contains(r) || (!s.hits_itself() && r == head)) by {
                if moved.contains(r) {
                    let k = choose|k: int| 0 <= k < moved.len() && moved[k] == r;
                    if k > 0 {
                        assert(s.body[k - 1] == r);
                    } else if s.hits_itself() {
                        let m = choose|m: int|
                            0 <= m < s.body.drop_last().len() && s.body.drop_last()[m] == head;
                        assert(s.body[m] == r);
                    }
                }
            }
        }
    }
}

/// Every operation keeps the state invariant; in particular a reward on the
/// board never lies under the snake.
pub proof fn lemma_operations_keep_wf(s: WorldView, direction: Direction, cell: int)
    requires
        s.wf(),
    ensures
        s.stepped().wf(),
        s.turned(direction).wf(),
        s.started().wf(),
        s.accepts_reward(cell) ==> (WorldView { reward: Some(cell), ..s }).wf(),
        s.stepped().reward matches Some(r) ==> !s.stepped().body.contains(r),
{
    lemma_stepped_wf(s);
}

/// Asking to reverse is ignored: when the head lies one move in `direction`
/// from the second segment, a request for the opposite direction leaves the
/// direction and the pending move as they were.
pub proof fn lemma_reversal_ignored(s: WorldView, direction: Direction)
    requires
        s.wf(),
        s.body[0] == next_index(s.width, s.body[1], direction),
    ensures
        s.turned(opposite(direction)) == s,
{
    lemma_move_back(s.width, s.body[1], direction);
}

/// Eating a reward before the board is full adds exactly one segment and one point.
pub proof fn lemma_reward_grows_snake(s: WorldView)
    requires
        s.wf(),
        s.status == Some(GameStatus::Played),
        s.reward == Some(s.next_head()),
        s.body.len() < s.size,
    ensures
        s.stepped().body.len() == s.body.len() + 1,
        s.stepped().points == s.points + 1,
        s.stepped().status == Some(GameStatus::Played),
{
    assert(!s.hits_itself()) by {
        if s.hits_itself() {
            let m = choose|m: int|
                0 <= m < s.body.drop_last().len() && s.body.drop_last()[m] == s.next_head();
            assert(s.body[m] == s.next_head());
        }
    }
}

/// After the snake grows, a free cell is left on the board for the next reward.
pub proof fn lemma_growth_leaves_free_cell(s: WorldView)
    requires
        s.wf(),
        s.status == Some(GameStatus::Played),
        s.reward == Some(s.next_head()),
        s.body.len() < s.size,
    ensures
        exists|c: int| on_board(s.width, c) && !(#[trigger] s.stepped().body.contains(c)),
{
    lemma_reward_grows_snake(s);
    let moved = s.moved_body();
    let grown = s.stepped().body;
    assert(grown == moved.push(s.body[s.body.len() - 2]));
    broadcast use seq_to_set_is_finite;
    moved.lemma_cardinality_of_set();
    lemma_int_range(0, s.size);
    if forall|c: int| on_board(s.width, c) ==> #[trigger] grown.contains(c) {
        assert(set_int_range(0, s.size).subset_of(moved.to_set())) by {
            assert forall|c: int| #[trigger] set_int_range(0, s.size).contains(c) implies moved.to_set().contains(c) by {
                assert(grown.contains(c));
                let k = choose|k: int| 0 <= k < grown.len() && grown[k] == c;
                if k == moved.len() {
                    assert(moved[s.body.len() - 1] == c);
                } else {
                    assert(moved[k] == c);
                }
            }
        }
        lemma_len_subset(set_int_range(0, s.size), moved.to_set());
    }
}

/// Once a game is won or lost it stays as it is: a step changes nothing, and
/// a change of direction leaves the body, the points and the status alone.
pub proof fn lemma_over_is_final(s: WorldView, direction: Direction)
    requires
        s.is_over(),
    ensures
        s.stepped() == s,
        s.started() == s,
        s.turned(direction).body == s.body,
        s.turned(direction).points == s.points,
        s.turned(direction).status == s.status,
{
}

/// A step whose new head lands on another segment loses the game.
pub proof fn lemma_self_collision_loses(s: WorldView)
    requires
        s.status == Some(GameStatus::Played),
        s.hits_itself(),
    ensures
        s.stepped().status == Some(GameStatus::Lost),
        s.stepped().body == s.moved_body(),
        s.stepped().points == s.points,
{
}

} // verus!
