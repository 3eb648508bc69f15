use mineraker::tile::{State, Tile, Value};

#[test]
fn with_value_starts_closed() {
    let tile = Tile::with_value(Value::Near(3));
    assert_eq!(tile, Tile::new(Value::Near(3), State::Closed));
    assert_eq!(tile, Tile::new(Value::Near(3), Default::default()));
    assert_eq!(Tile::default(), Tile::new(Value::Near(0), State::Closed));
    assert_eq!(Value::default(), Value::Near(0));
    assert_eq!(State::default(), State::Closed);
}

#[test]
fn increment_counts_but_keeps_mines() {
    let mut tile = Tile::default();
    tile.increment_value();
    assert_eq!(tile, Tile::with_value(Value::Near(1)));

    let mut mine = Tile::with_value(Value::Mine);
    mine.increment_value();
    assert_eq!(mine, Tile::with_value(Value::Mine));
}

#[test]
fn open_is_one_way() {
    let mut tile = Tile::new(Value::Near(2), State::Closed);
    tile.open();
    assert_eq!(tile.state(), State::Open);
    tile.toggle_flag();
    assert_eq!(tile.state(), State::Open);
    tile.flag();
    assert_eq!(tile.state(), State::Open);
    tile.open();
    assert_eq!(tile, Tile::new(Value::Near(2), State::Open));
}

#[test]
fn toggle_flag_twice_restores_closed() {
    let mut closed = Tile::new(Default::default(), State::Closed);
    closed.toggle_flag();
    assert_eq!(closed, Tile::new(Default::default(), State::Flag));
    closed.toggle_flag();
    assert_eq!(closed, Tile::new(Default::default(), State::Closed));

    let mut open = Tile::new(Default::default(), State::Open);
    open.toggle_flag();
    assert_eq!(open, Tile::new(Default::default(), State::Open));
}

#[test]
fn flag_only_from_closed_and_open_skips_flags() {
    let mut tile = Tile::new(Value::Mine, State::Closed);
    tile.flag();
    assert_eq!(tile.state(), State::Flag);
    tile.flag();
    assert_eq!(tile.state(), State::Flag);
    tile.open();
    assert_eq!(tile.state(), State::Flag);
    assert_eq!(tile.value(), Value::Mine);
}

#[test]
fn symbols_of_the_three_states() {
    assert_eq!(Tile::new(Value::Near(3), State::Closed).symbol(), '#');
    assert_eq!(Tile::new(Value::Near(3), State::Flag).symbol(), '?');
    assert_eq!(Tile::new(Value::Near(3), State::Open).symbol(), '3');
    assert_eq!(Tile::new(Value::Near(0), State::Open).symbol(), '_');
    assert_eq!(Tile::new(Value::Mine, State::Open).symbol(), '*');
    assert_eq!(Value::Near(8).symbol(), '8');
}
