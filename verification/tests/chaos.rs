use chaosymmetry::chaos::FreqMap;
use chaosymmetry::chaos::Position;
use chaosymmetry::chaos::Renderer;
use chaosymmetry::color::palette::Grayscale;
use chaosymmetry::color::palette::Palette;
use chaosymmetry::color::scale::ColorScale;
use chaosymmetry::color::scale::LinearColorScale;

fn gray_renderer(win_width: usize, zoom_num: u32, zoom_den: u32) -> Renderer {
    Renderer::new(
        win_width,
        zoom_num,
        zoom_den,
        ColorScale::Linear(LinearColorScale::default()),
        Palette::Grayscale(Grayscale {}),
    )
}

fn pixel(frame: &[u8], i: usize) -> [u8; 4] {
    [frame[4 * i], frame[4 * i + 1], frame[4 * i + 2], frame[4 * i + 3]]
}

#[test]
fn new_grid_is_all_zero() {
    let grid = FreqMap::new(3, 2);
    assert_eq!(grid.width(), 3);
    assert_eq!(grid.height(), 2);
    for y in 0..2 {
        for x in 0..3 {
            assert_eq!(grid.get(x, y), 0);
        }
    }
}

#[test]
fn record_bumps_only_the_addressed_cell() {
    let mut grid = FreqMap::new(3, 3);
    grid.record(1, 2);
    assert_eq!(grid.get(1, 2), 1);
    assert_eq!(grid.get(2, 1), 0);
    grid.record(1, 2);
    assert_eq!(grid.get(1, 2), 2);
}

#[test]
fn record_discards_out_of_bounds() {
    let mut grid = FreqMap::new(2, 2);
    grid.record(-1, 0);
    grid.record(0, -1);
    grid.record(2, 0);
    grid.record(0, 2);
    grid.record(i64::MAX, i64::MIN);
    for y in 0..2 {
        for x in 0..2 {
            assert_eq!(grid.get(x, y), 0);
        }
    }
}

#[test]
fn record_many_folds_the_batch() {
    let mut grid = FreqMap::new(4, 4);
    let points = vec![(0, 0), (1, 1), (0, 0), (3, 2), (9, 9)];
    grid.record_many(&points);
    assert_eq!(grid.get(0, 0), 2);
    assert_eq!(grid.get(1, 1), 1);
    assert_eq!(grid.get(3, 2), 1);
    assert_eq!(grid.get(2, 3), 0);
}

#[test]
fn counts_never_decrease() {
    // The monotonicity invariant, observed over an arbitrary step sequence.
    let mut grid = FreqMap::new(3, 3);
    let mut floor = vec![vec![0u64; 3]; 3];
    let steps: Vec<(i64, i64)> = vec![
        (0, 0),
        (2, 2),
        (-5, 1),
        (1, 1),
        (1, 1),
        (4, 4),
        (2, 0),
        (0, 2),
        (2, 2),
    ];
    for (x, y) in steps {
        grid.record(x, y);
        for yy in 0..3 {
            for xx in 0..3 {
                let now = grid.get(xx, yy);
                assert!(now >= floor[yy][xx]);
                floor[yy][xx] = now;
            }
        }
    }
}

#[test]
fn draw_rejects_misshapen_buffer() {
    let grid = FreqMap::new(4, 4);
    let mut renderer = gray_renderer(4, 1, 1);
    let mut frame: Vec<u8> = vec![7; 10];
    let ok = renderer.draw(&grid, &mut frame);
    assert!(!ok);
    assert_eq!(frame, vec![7; 10]);
}

#[test]
fn identity_viewport_maps_cells_to_pixels() {
    // Zoom 1, no pan, window as large as the grid: pixel (x, y) shows
    // exactly cell (x, y); the recorded center cell is the only non-white
    // pixel, and it calibrates to scale 1, which grayscale paints black.
    let mut grid = FreqMap::new(4, 4);
    grid.record(2, 2);
    let mut renderer = gray_renderer(4, 1, 1);
    let mut frame: Vec<u8> = vec![0; 4 * 4 * 4];
    let ok = renderer.draw(&grid, &mut frame);
    assert!(ok);
    for i in 0..16 {
        if i == 2 * 4 + 2 {
            assert_eq!(pixel(&frame, i), [0, 0, 0, 255]);
        } else {
            assert_eq!(pixel(&frame, i), [255, 255, 255, 255]);
        }
    }
}

#[test]
fn center_cell_hits_center_pixel() {
    // The viewport scenario: zoom 1, pan (0, 0); the simulation grid's
    // exact center cell lands on the output buffer's center pixel.
    let mut grid = FreqMap::new(10, 10);
    grid.record(5, 5);
    let mut renderer = gray_renderer(10, 1, 1);
    let mut frame: Vec<u8> = vec![0; 10 * 10 * 4];
    let ok = renderer.draw(&grid, &mut frame);
    assert!(ok);
    let center = 5 * 10 + 5;
    assert_eq!(pixel(&frame, center), [0, 0, 0, 255]);
    assert_eq!(pixel(&frame, 0), [255, 255, 255, 255]);
}

#[test]
fn zoomed_out_pixels_sum_cell_blocks() {
    // Zoom 1/2: each output pixel box-filters a 2x2 block of cells.
    let mut grid = FreqMap::new(4, 4);
    grid.record(0, 0);
    grid.record(1, 1);
    grid.record(1, 1);
    let mut renderer = gray_renderer(2, 1, 2);
    let mut frame: Vec<u8> = vec![0; 2 * 2 * 4];
    let ok = renderer.draw(&grid, &mut frame);
    assert!(ok);
    // Calibration sees counts {1, 2}. The top-left pixel sums its block to
    // 3, which clamps to scale 1 and paints black; the rest have no data.
    assert_eq!(pixel(&frame, 0), [0, 0, 0, 255]);
    assert_eq!(pixel(&frame, 1), [255, 255, 255, 255]);
    assert_eq!(pixel(&frame, 2), [255, 255, 255, 255]);
    assert_eq!(pixel(&frame, 3), [255, 255, 255, 255]);
}

#[test]
fn pan_shifts_the_viewport() {
    // With a window smaller than the grid and zoom 1, panning by one cell
    // moves which cell the first pixel shows.
    let mut grid = FreqMap::new(6, 6);
    grid.record(3, 2);
    let mut renderer = gray_renderer(2, 1, 1);
    // Without pan, pixel (0, 0) shows cell (2, 2).
    let mut frame: Vec<u8> = vec![0; 2 * 2 * 4];
    assert!(renderer.draw(&grid, &mut frame));
    assert_eq!(pixel(&frame, 0), [255, 255, 255, 255]);
    // Pan one cell right: pixel (0, 0) now shows cell (3, 2).
    renderer.position = Position {
        horizontal: 1,
        vertical: 0,
    };
    assert!(renderer.draw(&grid, &mut frame));
    assert_eq!(pixel(&frame, 0), [0, 0, 0, 255]);
}
