use packnet::Layer;
use packnet::TileIndex;

#[test]
fn new_layer_is_all_tile_zero() {
    let layer = Layer::new(3, 2);
    assert_eq!(layer.width, 3);
    assert_eq!(layer.height, 2);
    for x in 0..3 {
        for y in 0..2 {
            assert_eq!(layer.get(x, y), TileIndex::new(0));
        }
    }
}

#[test]
fn set_changes_one_cell_only() {
    let mut layer = Layer::new(4, 4);
    layer.set(2, 1, TileIndex::new(5));
    for x in 0..4 {
        for y in 0..4 {
            if (x, y) == (2, 1) {
                assert_eq!(layer.get(x, y), TileIndex::new(5));
            } else {
                assert_eq!(layer.get(x, y), TileIndex::new(0));
            }
        }
    }
}

#[test]
fn tile_data_loads_top_row_first() {
    // File order is row-major from the top; the grid keeps row 0 at the
    // bottom.
    let values: Vec<u64> = vec![1, 2, 3, 4];
    let layer = Layer::from_tile_data(2, 2, &values, 10);
    assert_eq!(layer.get(0, 1), TileIndex::new(1));
    assert_eq!(layer.get(1, 1), TileIndex::new(2));
    assert_eq!(layer.get(0, 0), TileIndex::new(3));
    assert_eq!(layer.get(1, 0), TileIndex::new(4));
}

#[test]
fn tile_data_wraps_values_beyond_the_tile_set() {
    let values: Vec<u64> = vec![7, 3];
    let layer = Layer::from_tile_data(2, 1, &values, 3);
    assert_eq!(layer.get(0, 0), TileIndex::new(1));
    assert_eq!(layer.get(1, 0), TileIndex::new(0));
}

#[test]
fn short_tile_data_leaves_the_rest_on_tile_zero() {
    let values: Vec<u64> = vec![9];
    let layer = Layer::from_tile_data(2, 2, &values, 16);
    assert_eq!(layer.get(0, 1), TileIndex::new(9));
    assert_eq!(layer.get(1, 1), TileIndex::new(0));
    assert_eq!(layer.get(0, 0), TileIndex::new(0));
    assert_eq!(layer.get(1, 0), TileIndex::new(0));
}

#[test]
fn tile_data_round_trips() {
    let values: Vec<u64> = vec![0, 1, 2, 3, 4, 5];
    let layer = Layer::from_tile_data(3, 2, &values, 100);
    assert_eq!(layer.to_tile_data(), values);
}

#[test]
fn cellular_automata_uses_only_the_two_tiles() {
    let a = TileIndex::new(1);
    let b = TileIndex::new(2);
    let layer = Layer::cellular_automata(8, 8, 3, a, b);
    assert_eq!(layer.width, 8);
    assert_eq!(layer.height, 8);
    for x in 0..8 {
        for y in 0..8 {
            let tile = layer.get(x, y);
            assert!(tile == a || tile == b);
        }
    }
}

#[test]
fn tile_index_value_round_trips() {
    let index = TileIndex::new(42);
    assert_eq!(index.value(), 42);
}
