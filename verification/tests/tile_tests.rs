use raytracer::tile::Rect;
use raytracer::tile::Tile;

fn drain(tile: &mut Tile) -> Vec<(i32, i32)> {
    let mut pixels: Vec<(i32, i32)> = Vec::new();
    while let Some(pixel) = tile.next() {
        pixels.push(pixel);
    }
    pixels
}

#[test]
fn tile_visits_column_by_column() {
    let mut tile = Tile::new(Rect { x: 1, y: 10, w: 2, h: 3 });
    assert_eq!(
        drain(&mut tile),
        vec![(1, 10), (1, 11), (1, 12), (2, 10), (2, 11), (2, 12)]
    );
}

#[test]
fn tile_stays_exhausted() {
    let mut tile = Tile::new(Rect { x: 0, y: 0, w: 1, h: 2 });
    assert_eq!(tile.next(), Some((0, 0)));
    assert_eq!(tile.next(), Some((0, 1)));
    assert_eq!(tile.next(), None);
    assert_eq!(tile.next(), None);
    assert_eq!(tile.next(), None);
}

#[test]
fn tile_of_one_pixel() {
    let mut tile = Tile::new(Rect { x: -3, y: 4, w: 1, h: 1 });
    assert_eq!(tile.next(), Some((-3, 4)));
    assert_eq!(tile.next(), None);
}

#[test]
fn tile_without_width_is_empty() {
    let mut tile = Tile::new(Rect { x: 5, y: 5, w: 0, h: 4 });
    assert_eq!(tile.next(), None);
    assert_eq!(tile.next(), None);
}

#[test]
fn tile_without_height_is_empty() {
    let mut tile = Tile::new(Rect { x: 5, y: 5, w: 4, h: 0 });
    assert_eq!(tile.next(), None);
    assert_eq!(tile.next(), None);
}

#[test]
fn tile_with_negative_extent_is_empty() {
    let mut narrow = Tile::new(Rect { x: 5, y: 5, w: -2, h: 4 });
    assert_eq!(drain(&mut narrow), vec![]);
    let mut flat = Tile::new(Rect { x: 5, y: 5, w: 4, h: -1 });
    assert_eq!(drain(&mut flat), vec![]);
}

#[test]
fn tile_remembers_its_bounds() {
    let bounds = Rect { x: 2, y: 3, w: 4, h: 5 };
    let mut tile = Tile::new(bounds);
    assert_eq!(tile.bounds(), bounds);
    tile.next();
    assert_eq!(tile.bounds(), bounds);
    assert_eq!(drain(&mut tile).len(), 19);
}

#[test]
fn tile_at_the_edge_of_the_coordinate_range() {
    let mut tile = Tile::new(Rect { x: i32::MAX - 1, y: i32::MIN, w: 1, h: 2 });
    assert_eq!(
        drain(&mut tile),
        vec![(i32::MAX - 1, i32::MIN), (i32::MAX - 1, i32::MIN + 1)]
    );
}
