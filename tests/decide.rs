use tron_bot::direction::Direction;
use tron_bot::game::{CoreError, GameState};

fn board(id: usize, w: usize, h: usize) -> GameState {
    GameState::new(id, w, h)
}

#[test]
fn open_board_all_moves_tie_and_up_wins() {
    let mut g = board(0, 5, 5);
    g.update_pos(0, 2, 2).unwrap();
    assert_eq!(g.reachable((2, 1), true), 24);
    assert_eq!(g.reachable((2, 3), true), 24);
    assert_eq!(g.reachable((1, 2), true), 24);
    assert_eq!(g.reachable((3, 2), true), 24);
    assert_eq!(g.reachable((2, 2), false), 0);
    assert_eq!(g.next_move(), Ok(Direction::Up));
}

#[test]
fn blocked_up_and_down_fall_back_to_left() {
    let mut g = board(0, 5, 5);
    g.update_pos(0, 0, 1).unwrap();
    g.update_pos(0, 0, 3).unwrap();
    g.update_pos(0, 0, 2).unwrap();
    assert_eq!(g.reachable((0, 1), true), 0);
    assert_eq!(g.reachable((0, 3), true), 0);
    assert_eq!(g.reachable((4, 2), true), 22);
    assert_eq!(g.reachable((1, 2), true), 22);
    assert_eq!(g.direction_with_max_distance(true), Some(Direction::Left));
    assert_eq!(g.next_move(), Ok(Direction::Left));
}

#[test]
fn enclosed_player_moves_up() {
    let mut g = board(0, 5, 5);
    g.update_pos(1, 2, 1).unwrap();
    g.update_pos(1, 1, 2).unwrap();
    g.update_pos(1, 2, 3).unwrap();
    g.update_pos(1, 3, 2).unwrap();
    g.update_pos(0, 2, 2).unwrap();
    assert_eq!(g.direction_with_max_distance(true), None);
    assert_eq!(g.direction_with_max_distance(false), None);
    assert_eq!(g.next_move(), Ok(Direction::Up));
}

#[test]
fn larger_room_beats_earlier_direction() {
    // On a single row, up and down wrap onto the head itself.
    let mut h = board(0, 7, 1);
    h.update_pos(0, 4, 0).unwrap();
    h.update_pos(0, 1, 0).unwrap();
    assert_eq!(h.reachable((0, 0), false), 3);
    assert_eq!(h.reachable((2, 0), false), 2);
    assert_eq!(h.next_move(), Ok(Direction::Left));
    let mut k = board(0, 7, 1);
    k.update_pos(0, 5, 0).unwrap();
    k.update_pos(0, 2, 0).unwrap();
    assert_eq!(k.reachable((1, 0), false), 3);
    assert_eq!(k.reachable((3, 0), false), 2);
    assert_eq!(k.next_move(), Ok(Direction::Left));
    let mut m = board(0, 7, 1);
    m.update_pos(0, 0, 0).unwrap();
    m.update_pos(0, 2, 0).unwrap();
    assert_eq!(m.reachable((1, 0), false), 1);
    assert_eq!(m.reachable((3, 0), false), 4);
    assert_eq!(m.next_move(), Ok(Direction::Right));
}

#[test]
fn cautious_phase_avoids_opponent_head() {
    let mut g = board(0, 5, 5);
    g.update_pos(1, 2, 0).unwrap();
    g.update_pos(0, 2, 2).unwrap();
    assert_eq!(g.reachable((2, 1), true), 0);
    assert_eq!(g.reachable((2, 3), true), 19);
    assert_eq!(g.reachable((1, 2), true), 19);
    assert_eq!(g.reachable((2, 1), false), 23);
    assert_eq!(g.direction_with_max_distance(false), Some(Direction::Up));
    assert_eq!(g.next_move(), Ok(Direction::Down));
}

#[test]
fn fallback_phase_used_when_cautious_finds_nothing() {
    let mut g = board(0, 3, 1);
    g.update_pos(1, 0, 0).unwrap();
    g.update_pos(0, 1, 0).unwrap();
    assert_eq!(g.direction_with_max_distance(true), None);
    assert_eq!(g.direction_with_max_distance(false), Some(Direction::Right));
    assert_eq!(g.next_move(), Ok(Direction::Right));
}

#[test]
fn alone_on_board_decision_is_first_largest() {
    let mut g = board(3, 4, 3);
    g.update_pos(3, 0, 0).unwrap();
    assert_eq!(g.next_move(), Ok(Direction::Up));
    assert_eq!(g.next_move(), Ok(Direction::Up));
    let mut h = board(3, 4, 3);
    h.update_pos(3, 1, 0).unwrap();
    h.update_pos(3, 1, 2).unwrap();
    h.update_pos(3, 1, 1).unwrap();
    // Column 1 is a full wall: every open cell lies in one region of 9.
    assert_eq!(h.reachable((0, 1), true), 9);
    assert_eq!(h.reachable((2, 1), true), 9);
    assert_eq!(h.next_move(), Ok(Direction::Left));
}

#[test]
fn reachable_never_counts_occupied_cells() {
    let mut g = board(0, 4, 4);
    g.update_pos(1, 0, 0).unwrap();
    g.update_pos(1, 1, 0).unwrap();
    g.update_pos(0, 3, 3).unwrap();
    assert_eq!(g.reachable((2, 2), false), 13);
    assert_eq!(g.reachable((2, 2), false), 13);
    assert_eq!(g.reachable((0, 0), false), 0);
}

#[test]
fn enclosed_loop_counts_inside_only() {
    let mut g = board(0, 6, 6);
    // A ring of trail around the 2x2 square at columns 2..4, rows 2..4.
    let ring = [(2, 1), (3, 1), (4, 2), (4, 3), (3, 4), (2, 4), (1, 3), (1, 2)];
    for (x, y) in ring {
        g.update_pos(0, x, y).unwrap();
    }
    assert_eq!(g.reachable((2, 2), false), 4);
    g.update_pos(0, 3, 3).unwrap();
    assert_eq!(g.reachable((2, 2), false), 3);
    assert_eq!(g.reachable((0, 0), false), 24);
}

#[test]
fn death_clears_only_the_dead_players_trail() {
    let mut g = board(0, 4, 4);
    g.update_pos(1, 0, 0).unwrap();
    g.update_pos(1, 1, 0).unwrap();
    g.update_pos(2, 2, 0).unwrap();
    g.update_pos(2, 1, 0).unwrap();
    g.update_pos(0, 3, 3).unwrap();
    assert_eq!(g.player_died(1), Ok(()));
    assert!(g.is_empty(0, 0));
    assert_eq!(g.owner(1, 0), Some(2));
    assert_eq!(g.owner(2, 0), Some(2));
    assert_eq!(g.owner(3, 3), Some(0));
    assert_eq!(g.head_of(1), None);
    assert_eq!(g.head_of(2), Some((1, 0)));
    assert_eq!(g.head_of(0), Some((3, 3)));
}

#[test]
fn death_of_unknown_player_changes_nothing() {
    let mut g = board(0, 3, 3);
    g.update_pos(0, 1, 1).unwrap();
    assert_eq!(g.player_died(7), Err(CoreError::UnknownPlayer));
    assert_eq!(g.owner(1, 1), Some(0));
    assert_eq!(g.head_of(0), Some((1, 1)));
}

#[test]
fn position_off_the_board_is_rejected() {
    let mut g = board(0, 5, 5);
    assert_eq!(g.update_pos(1, 5, 0), Err(CoreError::InvalidCoordinate));
    assert_eq!(g.update_pos(1, 0, 5), Err(CoreError::InvalidCoordinate));
    assert_eq!(g.head_of(1), None);
    assert!(g.is_empty(0, 0));
}

#[test]
fn move_without_own_head_is_refused() {
    let mut g = board(4, 5, 5);
    assert_eq!(g.next_move(), Err(CoreError::SelectorInvokedWhileIdle));
    g.update_pos(1, 2, 2).unwrap();
    assert_eq!(g.next_move(), Err(CoreError::SelectorInvokedWhileIdle));
    let empty = board(4, 0, 0);
    assert_eq!(empty.next_move(), Err(CoreError::SelectorInvokedWhileIdle));
}

#[test]
fn adjacency_wraps_at_the_edges() {
    let mut g = board(0, 5, 5);
    g.update_pos(1, 0, 2).unwrap();
    assert!(g.neighboring_opponents((4, 2)));
    assert!(g.neighboring_opponents((1, 2)));
    assert!(g.neighboring_opponents((0, 1)));
    assert!(g.neighboring_opponents((0, 3)));
    assert!(!g.neighboring_opponents((3, 2)));
    assert!(!g.neighboring_opponents((4, 1)));
    g.update_pos(2, 3, 4).unwrap();
    assert!(g.neighboring_opponents((3, 0)));
}

#[test]
fn own_head_is_not_an_opponent() {
    let mut g = board(0, 5, 5);
    g.update_pos(0, 2, 2).unwrap();
    assert!(!g.neighboring_opponents((2, 1)));
}

#[test]
fn new_board_is_empty_with_given_size() {
    let g = board(9, 3, 2);
    assert_eq!(g.id(), 9);
    assert_eq!(g.width(), 3);
    assert_eq!(g.height(), 2);
    assert!(g.is_empty(2, 1));
    assert_eq!(g.head_of(9), None);
}

#[test]
fn position_moves_the_head_and_keeps_the_trail() {
    let mut g = board(0, 3, 3);
    g.update_pos(0, 0, 0).unwrap();
    g.update_pos(0, 1, 0).unwrap();
    assert_eq!(g.head_of(0), Some((1, 0)));
    assert_eq!(g.owner(0, 0), Some(0));
    assert_eq!(g.owner(1, 0), Some(0));
}

#[test]
fn direction_words() {
    assert_eq!(Direction::Up.word(), "up");
    assert_eq!(Direction::Down.word(), "down");
    assert_eq!(Direction::Left.word(), "left");
    assert_eq!(Direction::Right.word(), "right");
    assert_eq!(Direction::by_rank(2), Direction::Left);
}
