use match3::board::{find_origin, EngineError, GameBoard};
use match3::components::{GridPos, Handle, TilePosition, WorldPos};
use match3::gravity::BoardEvent;
use match3::matching::line_runs;
use match3::settle::{any_marked, create_gameboard};
use match3::swap::{SelectedTile, SwapResult};
use match3::tile::TileColor::{Brown, Green, Grey, LightBlue, Orange, Red};
use match3::tile::{TileColor, TileDesc, TileMarking};

fn desc(color: TileColor) -> TileDesc {
    TileDesc { color, mark: TileMarking::Blank }
}

fn board(width: u32, height: u32, colors: &[TileColor]) -> GameBoard {
    let tiles: Vec<TileDesc> = colors.iter().map(|c| desc(*c)).collect();
    GameBoard::from_tiles(GridPos::new(width, height), tiles, 1280, 720, 7).unwrap()
}

fn palette(i: usize) -> TileColor {
    TileColor::from_ordinal(i).unwrap()
}

/// An 8x8 board without runs: colour `(x + 3y) mod 7`, so that neighbours
/// always differ.
fn stripes() -> Vec<TileColor> {
    let mut v = Vec::new();
    for y in 0..8usize {
        for x in 0..8usize {
            v.push(palette((x + 3 * y) % 7));
        }
    }
    v
}

fn marked(mask: &[bool]) -> Vec<usize> {
    mask.iter().enumerate().filter(|(_, m)| **m).map(|(i, _)| i).collect()
}

fn assert_bijection(b: &GameBoard) {
    let mut seen = Vec::new();
    for y in 0..b.dimensions.y {
        for x in 0..b.dimensions.x {
            let p = GridPos::new(x, y);
            assert_eq!(b.get_tile(p).is_some(), b.get_entity(p).is_some());
            if let Some(h) = b.get_entity(p) {
                assert!(!seen.contains(&h));
                seen.push(h);
            }
        }
    }
}

#[test]
fn resolver_flags_leading_run() {
    let b = board(5, 1, &[Red, Red, Red, LightBlue, Green]);
    assert_eq!(marked(&b.find_matches()), vec![0, 1, 2]);
}

#[test]
fn resolver_flags_trailing_run_only() {
    let b = board(5, 1, &[Red, Red, LightBlue, LightBlue, LightBlue]);
    assert_eq!(marked(&b.find_matches()), vec![2, 3, 4]);
}

#[test]
fn resolver_flushes_run_at_line_end() {
    let b = board(4, 1, &[LightBlue, Red, Red, Red]);
    assert_eq!(marked(&b.find_matches()), vec![1, 2, 3]);
}

#[test]
fn resolver_finds_vertical_runs() {
    let b = board(1, 5, &[Green, Red, Red, Red, Red]);
    assert_eq!(marked(&b.find_matches()), vec![1, 2, 3, 4]);
}

#[test]
fn resolver_is_a_noop_below_match_length() {
    let b = board(2, 2, &[Red, Red, Red, Red]);
    assert!(!any_marked(&b.find_matches()));
}

#[test]
fn resolver_clears_crossing_cell_once() {
    let b = board(3, 3, &[Green, Red, Grey, Red, Red, Red, Grey, Red, Green]);
    assert_eq!(marked(&b.find_matches()), vec![1, 3, 4, 5, 7]);
}

#[test]
fn line_runs_marks_long_runs() {
    let r = line_runs(&vec![Red, Red, Green, Green, Green, Green, Red]);
    assert_eq!(r, vec![false, false, true, true, true, true, false]);
    assert!(line_runs(&vec![]).is_empty());
}

#[test]
fn horizontal_and_vertical_resolvers_accumulate() {
    let b = board(3, 3, &[Red, Red, Red, Green, Grey, Green, Grey, Green, Grey]);
    let mut mask = vec![false; 9];
    b.resolve_vertical_matches(&mut mask);
    assert!(!any_marked(&mask));
    b.resolve_horizontal_matches(&mut mask);
    assert_eq!(marked(&mask), vec![0, 1, 2]);
}

#[test]
fn collapse_moves_tiles_down_with_handles() {
    let mut b = board(1, 4, &[Red, Green, LightBlue, Grey]);
    let events = b.remove_matches(&vec![false, true, false, true]);
    assert_eq!(
        events,
        vec![BoardEvent::Despawned { handle: Handle(1) }, BoardEvent::Despawned { handle: Handle(3) }]
    );
    let mut moves = Vec::new();
    let spaces = b.shuffle_tiles_down(&mut moves);
    assert_eq!(spaces, vec![2]);
    assert_eq!(b.get_tile(GridPos::new(0, 0)), Some(desc(Red)));
    assert_eq!(b.get_tile(GridPos::new(0, 1)), Some(desc(LightBlue)));
    assert_eq!(b.get_tile(GridPos::new(0, 2)), None);
    assert_eq!(b.get_tile(GridPos::new(0, 3)), None);
    assert_eq!(b.get_entity(GridPos::new(0, 0)), Some(Handle(0)));
    assert_eq!(b.get_entity(GridPos::new(0, 1)), Some(Handle(2)));
    assert_eq!(
        moves,
        vec![BoardEvent::Moved { handle: Handle(2), from: GridPos::new(0, 2), to: GridPos::new(0, 1) }]
    );
    assert_bijection(&b);
}

#[test]
fn collapse_of_full_column_changes_nothing() {
    let mut b = board(1, 3, &[Red, Green, LightBlue]);
    let before = b.forward.clone();
    let mut moves = Vec::new();
    assert_eq!(b.shuffle_tiles_down(&mut moves), vec![0]);
    assert!(moves.is_empty());
    assert_eq!(b.forward, before);
}

#[test]
fn refill_fills_top_cells_with_fresh_handles() {
    let mut b = board(2, 3, &[Red, Green, LightBlue, Grey, Orange, Brown]);
    b.remove_matches(&vec![false, false, false, true, false, true]);
    let mut events = Vec::new();
    let spaces = b.shuffle_tiles_down(&mut events);
    assert_eq!(spaces, vec![0, 2]);
    events.clear();
    b.spawn_new_tiles(&spaces, &mut events);
    assert_eq!(events.len(), 2);
    for e in &events {
        match e {
            BoardEvent::Spawned { handle, tile, origin_row, to } => {
                assert_eq!(to.x, 1);
                assert!(handle.0 >= 6);
                assert_eq!(*origin_row, to.y as u64 + 3);
                assert_eq!(b.get_tile(*to), Some(*tile));
                assert_eq!(b.get_entity(*to), Some(*handle));
            }
            _ => panic!("unexpected event"),
        }
    }
    assert_eq!(b.get_tile(GridPos::new(1, 0)), Some(desc(Green)));
    assert_bijection(&b);
}

#[test]
fn selecting_a_neighbour_swaps() {
    let mut b = board(3, 1, &[Red, Green, LightBlue]);
    let first = b.click_cell(None, Some(GridPos::new(0, 0)));
    assert_eq!(first.selected, Some(SelectedTile(GridPos::new(0, 0))));
    assert!(!first.swapped);
    let second = b.click_cell(first.selected, Some(GridPos::new(1, 0)));
    assert!(second.swapped);
    assert_eq!(second.selected, None);
    assert_eq!(b.get_tile(GridPos::new(0, 0)), Some(desc(Green)));
    assert_eq!(b.get_tile(GridPos::new(1, 0)), Some(desc(Red)));
    assert_eq!(b.get_entity(GridPos::new(0, 0)), Some(Handle(1)));
    assert_eq!(b.get_entity(GridPos::new(1, 0)), Some(Handle(0)));
}

#[test]
fn selecting_a_distant_cell_moves_the_selection() {
    let mut b = board(3, 1, &[Red, Green, LightBlue]);
    let out = b.click_cell(Some(SelectedTile(GridPos::new(0, 0))), Some(GridPos::new(2, 0)));
    assert_eq!(out.selected, Some(SelectedTile(GridPos::new(2, 0))));
    assert!(!out.swapped);
    assert_eq!(b.get_tile(GridPos::new(0, 0)), Some(desc(Red)));
}

#[test]
fn selecting_the_same_cell_deselects() {
    let mut b = board(3, 1, &[Red, Green, LightBlue]);
    let out = b.click_cell(Some(SelectedTile(GridPos::new(0, 0))), Some(GridPos::new(0, 0)));
    assert_eq!(out.selected, None);
    assert!(!out.swapped);
}

#[test]
fn clicking_off_the_board_deselects() {
    let mut b = board(3, 1, &[Red, Green, LightBlue]);
    let out = b.click_processor(Some(SelectedTile(GridPos::new(0, 0))), WorldPos { x: -5000, y: 0 });
    assert_eq!(out.selected, None);
    assert!(!out.swapped);
}

#[test]
fn clicking_world_points_selects_cells() {
    let mut b = GameBoard::from_tiles(GridPos::new(8, 8), stripes().into_iter().map(desc).collect(), 1280, 720, 1).unwrap();
    // The origin is (24, -256); cell (x, y) spans 64 pixels from origin + 32.
    let out = b.click_processor(None, WorldPos { x: 24 + 32 + 64 * 3 + 10, y: -256 + 32 + 64 * 2 });
    assert_eq!(out.selected, Some(SelectedTile(GridPos::new(3, 2))));
}

#[test]
fn swap_requests_are_validated() {
    let mut b = board(3, 2, &[Red, Green, LightBlue, Grey, Orange, Brown]);
    assert_eq!(b.request_swap(GridPos::new(0, 0), GridPos::new(3, 0)), SwapResult::Rejected(EngineError::OutOfBounds));
    assert_eq!(b.request_swap(GridPos::new(0, 0), GridPos::new(1, 1)), SwapResult::Rejected(EngineError::InvalidSwap));
    assert_eq!(b.request_swap(GridPos::new(0, 0), GridPos::new(0, 0)), SwapResult::Rejected(EngineError::InvalidSwap));
    assert_eq!(b.request_swap(GridPos::new(0, 0), GridPos::new(0, 1)), SwapResult::Applied);
    assert_eq!(b.get_tile(GridPos::new(0, 0)), Some(desc(Grey)));
    assert_eq!(b.get_tile(GridPos::new(0, 1)), Some(desc(Red)));
}

#[test]
fn new_boards_start_without_matches() {
    for seed in 0..20u64 {
        let (b, events) = create_gameboard(GridPos::new(8, 8), 1280, 720, seed).unwrap();
        assert!(!any_marked(&b.find_matches()));
        assert_eq!(events.len(), 64);
        assert_bijection(&b);
        for y in 0..8 {
            for x in 0..8 {
                let t = b.get_tile(GridPos::new(x, y)).unwrap();
                assert!(t.color.ordinal() < 17);
                assert!(t.mark.ordinal() < 5);
            }
        }
    }
}

#[test]
fn small_boards_also_start_clean() {
    let (b, _) = create_gameboard(GridPos::new(3, 3), 1280, 720, 99).unwrap();
    assert!(!any_marked(&b.find_matches()));
}

#[test]
fn one_swap_runs_one_full_cycle() {
    let mut colors = stripes();
    colors[0] = LightBlue;
    colors[1] = LightBlue;
    colors[2] = Orange;
    colors[3] = LightBlue;
    let tiles: Vec<TileDesc> = colors.into_iter().map(desc).collect();
    let mut b = GameBoard::from_tiles(GridPos::new(8, 8), tiles, 1280, 720, 42).unwrap();
    assert!(!any_marked(&b.find_matches()));

    let sel = b.click_cell(None, Some(GridPos::new(2, 0)));
    let out = b.click_cell(sel.selected, Some(GridPos::new(3, 0)));
    assert!(out.swapped);

    let mask = b.find_matches();
    assert_eq!(marked(&mask), vec![0, 1, 2]);
    let despawned = b.remove_matches(&mask);
    assert_eq!(
        despawned,
        vec![
            BoardEvent::Despawned { handle: Handle(0) },
            BoardEvent::Despawned { handle: Handle(1) },
            BoardEvent::Despawned { handle: Handle(3) },
        ]
    );
    let mut moves = Vec::new();
    let spaces = b.shuffle_tiles_down(&mut moves);
    assert_eq!(spaces, vec![1, 1, 1, 0, 0, 0, 0, 0]);
    assert_eq!(moves.len(), 21);
    let mut spawned = Vec::new();
    b.spawn_new_tiles(&spaces, &mut spawned);
    assert_eq!(spawned.len(), 3);
    assert!(spawned.iter().all(|e| matches!(e, BoardEvent::Spawned { to, .. } if to.y == 7 && to.x < 3)));
    assert_bijection(&b);

    let (rest, settled) = b.settle(100);
    assert!(settled);
    assert_eq!(rest.last(), Some(&BoardEvent::SettleComplete));
    assert!(!any_marked(&b.find_matches()));
    assert_bijection(&b);
}

#[test]
fn match_remove_refill_reports_despawns_first() {
    let mut colors = stripes();
    colors[0] = LightBlue;
    colors[1] = LightBlue;
    colors[2] = LightBlue;
    let tiles: Vec<TileDesc> = colors.into_iter().map(desc).collect();
    let mut b = GameBoard::from_tiles(GridPos::new(8, 8), tiles, 1280, 720, 3).unwrap();
    let events = b.match_remove_refill();
    assert_eq!(events[0], BoardEvent::Despawned { handle: Handle(0) });
    assert_eq!(events[1], BoardEvent::Despawned { handle: Handle(1) });
    assert_eq!(events[2], BoardEvent::Despawned { handle: Handle(2) });
    assert_eq!(events.iter().filter(|e| matches!(e, BoardEvent::Moved { .. })).count(), 21);
    assert_eq!(events.iter().filter(|e| matches!(e, BoardEvent::Spawned { .. })).count(), 3);
    assert_eq!(b.get_entity(GridPos::new(0, 0)), Some(Handle(8)));
}

#[test]
fn settle_on_a_quiet_board_only_completes() {
    let tiles: Vec<TileDesc> = stripes().into_iter().map(desc).collect();
    let mut b = GameBoard::from_tiles(GridPos::new(8, 8), tiles, 1280, 720, 5).unwrap();
    let before = b.forward.clone();
    let (events, settled) = b.settle(10);
    assert!(settled);
    assert_eq!(events, vec![BoardEvent::SettleComplete]);
    assert_eq!(b.forward, before);
}

#[test]
fn from_tiles_rejects_wrong_count() {
    assert!(GameBoard::from_tiles(GridPos::new(2, 2), vec![desc(TileColor::Red)], 1280, 720, 0).is_none());
}

#[test]
fn check_initial_tiles_rerolls_runs() {
    let mut b = board(3, 3, &[Red; 9]);
    assert!(b.check_intial_tiles(1000));
    assert!(!any_marked(&b.find_matches()));
    for i in 0..9u64 {
        assert_eq!(b.backward[i as usize], Some(Handle(i)));
    }
}

#[test]
fn binding_api_reports_errors() {
    let mut b = board(2, 1, &[Red, Green]);
    assert_eq!(b.unbind(GridPos::new(0, 0)), Ok(Handle(0)));
    assert_eq!(b.unbind(GridPos::new(0, 0)), Err(EngineError::MissingBinding));
    assert_eq!(b.unbind(GridPos::new(5, 0)), Err(EngineError::OutOfBounds));
    assert_eq!(b.bind(GridPos::new(0, 0), Handle(9)), Ok(()));
    assert_eq!(b.get_entity(GridPos::new(0, 0)), Some(Handle(9)));
    assert_eq!(b.set_tile(GridPos::new(1, 0), None), Ok(()));
    assert_eq!(b.get_tile(GridPos::new(1, 0)), None);
    assert_eq!(b.set_tile(GridPos::new(0, 3), None), Err(EngineError::OutOfBounds));
    assert_eq!(b.get_tile(GridPos::new(0, 3)), None);
}

#[test]
fn addressing_round_trips() {
    let b = GameBoard::new(GridPos::new(8, 8), 1280, 720, 0);
    assert_eq!(find_origin(1280, 720), WorldPos { x: 24, y: -256 });
    assert_eq!(b.origin, WorldPos { x: 24, y: -256 });
    assert_eq!(b.idx(GridPos::new(3, 2)), 19);
    assert_eq!(b.find_grid_from_index(19), GridPos::new(3, 2));
    assert_eq!(b.find_local_from_grid(GridPos::new(1, 2)), WorldPos { x: 96, y: 160 });
    assert_eq!(b.get_board_pos(GridPos::new(1, 2)), WorldPos { x: 96, y: 160 });
    assert_eq!(b.get_offsets(), WorldPos { x: 56, y: -224 });
    assert_eq!(b.get_world_pos(GridPos::new(1, 2)), WorldPos { x: 120, y: -(128 - 224) });
    assert_eq!(b.find_index_from_world(WorldPos { x: 56, y: -224 }), Some(0));
    assert_eq!(b.find_index_from_world(WorldPos { x: 56 + 511, y: -224 + 511 }), Some(63));
    assert_eq!(b.find_index_from_world(WorldPos { x: 56 + 512, y: -224 }), None);
    assert_eq!(b.find_index_from_world(WorldPos { x: 55, y: -224 }), None);
    assert_eq!(b.find_grid_from_world(WorldPos { x: 56 + 130, y: -224 + 64 }), Some(GridPos::new(2, 1)));
    assert_eq!(b.find_grid_from_world(WorldPos { x: 56, y: -224 + 512 }), None);
}

#[test]
fn tile_descriptors_map_to_sprites() {
    let t = TileDesc::from_ordinals(5, 3).unwrap();
    assert_eq!(t.color, TileColor::Red);
    assert_eq!(t.mark, TileMarking::Square);
    assert_eq!(t.get_index(), 33);
    assert_eq!(TileDesc::from_ordinals(17, 5).unwrap().get_index(), 107);
    assert!(TileDesc::from_ordinals(18, 0).is_none());
    assert!(TileDesc::from_ordinals(0, 6).is_none());
    assert!(t.matches(&TileDesc { color: TileColor::Red, mark: TileMarking::Star }));
    assert!(!t.matches(&TileDesc { color: TileColor::Green, mark: TileMarking::Square }));
}

#[test]
fn distances_between_cells() {
    let a = GridPos::new(1, 5);
    let b = GridPos::new(4, 1);
    assert_eq!(a.ldistance(b), 7);
    assert_eq!(a.cdistance(b), 4);
    assert_eq!(a.ldistance(a), 0);
}

#[test]
fn tile_positions_add_and_subtract() {
    let a = TilePosition(GridPos::new(3, 1));
    let b = TilePosition(GridPos::new(1, 4));
    assert_eq!(a.add(b), TilePosition(GridPos::new(4, 5)));
    assert_eq!(a.sub(b), TilePosition(GridPos::new(2, 0)));
    assert_eq!(a.grid(), GridPos::new(3, 1));
    assert_eq!(SelectedTile(GridPos::new(2, 2)).as_uvec2(), GridPos::new(2, 2));
}

#[test]
fn settle_without_budget_reports_unsettled() {
    let mut colors = stripes();
    colors[0] = LightBlue;
    colors[1] = LightBlue;
    colors[2] = LightBlue;
    let tiles: Vec<TileDesc> = colors.into_iter().map(desc).collect();
    let mut b = GameBoard::from_tiles(GridPos::new(8, 8), tiles, 1280, 720, 11).unwrap();
    assert!(b.handle_room());
    let (events, settled) = b.settle(0);
    assert!(!settled);
    assert!(events.is_empty());
    assert_eq!(marked(&b.find_matches()), vec![0, 1, 2]);
}

#[test]
fn reroll_marked_writes_only_marked_cells() {
    let mut b = board(3, 1, &[Red, Green, LightBlue]);
    b.reroll_marked(&vec![false, true, false], &vec![desc(Grey), desc(Orange), desc(Brown)]);
    assert_eq!(b.get_tile(GridPos::new(0, 0)), Some(desc(Red)));
    assert_eq!(b.get_tile(GridPos::new(1, 0)), Some(desc(Orange)));
    assert_eq!(b.get_tile(GridPos::new(2, 0)), Some(desc(LightBlue)));
    assert_eq!(b.get_entity(GridPos::new(1, 0)), Some(Handle(1)));
}

#[test]
fn reroll_matches_keeps_cells_outside_runs() {
    let mut b = board(4, 1, &[Red, Red, Red, Green]);
    assert!(b.reroll_matches());
    assert_eq!(b.get_tile(GridPos::new(3, 0)), Some(desc(Green)));
    let mut quiet = board(3, 1, &[Red, Green, Red]);
    assert!(!quiet.reroll_matches());
    assert_eq!(quiet.get_tile(GridPos::new(0, 0)), Some(desc(Red)));
}

#[test]
fn refill_with_places_the_given_tiles() {
    let mut b = board(1, 3, &[Red, Green, LightBlue]);
    b.remove_matches(&vec![false, true, true]);
    let mut events = Vec::new();
    let spaces = b.shuffle_tiles_down(&mut events);
    assert_eq!(spaces, vec![2]);
    let mut spawned = Vec::new();
    b.refill_with(&spaces, &vec![desc(Brown), desc(Grey), desc(Orange)], &mut spawned);
    assert_eq!(b.get_tile(GridPos::new(0, 0)), Some(desc(Red)));
    assert_eq!(b.get_tile(GridPos::new(0, 1)), Some(desc(Grey)));
    assert_eq!(b.get_tile(GridPos::new(0, 2)), Some(desc(Orange)));
    assert_eq!(
        spawned,
        vec![
            BoardEvent::Spawned { handle: Handle(3), tile: desc(Orange), origin_row: 5, to: GridPos::new(0, 2) },
            BoardEvent::Spawned { handle: Handle(4), tile: desc(Grey), origin_row: 4, to: GridPos::new(0, 1) },
        ]
    );
}

#[test]
fn small_boards_are_always_created() {
    for seed in 0..10u64 {
        let (b, events) = create_gameboard(GridPos::new(2, 2), 800, 600, seed).unwrap();
        assert_eq!(events.len(), 4);
        assert_eq!(b.next_handle, 4);
        assert_eq!(b.origin, find_origin(800, 600));
    }
}

#[test]
fn settle_starts_with_the_first_cycle_despawns() {
    let mut colors = stripes();
    colors[0] = LightBlue;
    colors[1] = LightBlue;
    colors[2] = LightBlue;
    let tiles: Vec<TileDesc> = colors.into_iter().map(desc).collect();
    let mut b = GameBoard::from_tiles(GridPos::new(8, 8), tiles, 1280, 720, 21).unwrap();
    let (events, settled) = b.settle(100);
    assert!(settled);
    assert_eq!(&events[0..3], &[
        BoardEvent::Despawned { handle: Handle(0) },
        BoardEvent::Despawned { handle: Handle(1) },
        BoardEvent::Despawned { handle: Handle(2) },
    ]);
}

#[test]
fn settle_without_handle_room_changes_nothing() {
    let mut colors = stripes();
    colors[0] = LightBlue;
    colors[1] = LightBlue;
    colors[2] = LightBlue;
    let tiles: Vec<TileDesc> = colors.into_iter().map(desc).collect();
    let mut b = GameBoard::from_tiles(GridPos::new(8, 8), tiles, 1280, 720, 21).unwrap();
    b.next_handle = u64::MAX - 10;
    let before = b.forward.clone();
    let (events, settled) = b.settle(5);
    assert!(!settled);
    assert!(events.is_empty());
    assert_eq!(b.forward, before);
}

#[test]
fn cleared_handles_are_not_bound_after_a_cycle() {
    let mut colors = stripes();
    colors[0] = LightBlue;
    colors[1] = LightBlue;
    colors[2] = LightBlue;
    let tiles: Vec<TileDesc> = colors.into_iter().map(desc).collect();
    let mut b = GameBoard::from_tiles(GridPos::new(8, 8), tiles, 1280, 720, 8).unwrap();
    b.match_remove_refill();
    for h in b.backward.iter() {
        let h = h.unwrap();
        assert!(h != Handle(0) && h != Handle(1) && h != Handle(2));
    }
    assert_bijection(&b);
}
