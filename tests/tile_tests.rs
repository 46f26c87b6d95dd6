use mandelbrot::config::Config;
use mandelbrot::tiles::{integer_sqrt, work_item_creator, WorkItem};
use mandelbrot::worker::{mean_color, tile_cells, worker};

const CONFIG: Config = Config {
    side_lengths: 1023,
    num_blocks: 128,
    num_threads: 1,
    samples: 200,
    max_iter: 500,
};

const TEST_ITEMS: [WorkItem; 10] = [
    WorkItem { initial_x: 0, final_x: 93, initial_y: 0, final_y: 93 },
    WorkItem { initial_x: 0, final_x: 93, initial_y: 93, final_y: 186 },
    WorkItem { initial_x: 0, final_x: 93, initial_y: 186, final_y: 279 },
    WorkItem { initial_x: 0, final_x: 93, initial_y: 279, final_y: 372 },
    WorkItem { initial_x: 0, final_x: 93, initial_y: 372, final_y: 465 },
    WorkItem { initial_x: 0, final_x: 93, initial_y: 465, final_y: 558 },
    WorkItem { initial_x: 0, final_x: 93, initial_y: 558, final_y: 651 },
    WorkItem { initial_x: 0, final_x: 93, initial_y: 651, final_y: 744 },
    WorkItem { initial_x: 0, final_x: 93, initial_y: 744, final_y: 837 },
    WorkItem { initial_x: 0, final_x: 93, initial_y: 837, final_y: 930 },
];

#[test]
fn test_item_creator() {
    let items = work_item_creator(CONFIG);
    for i in 0..TEST_ITEMS.len() {
        assert!(TEST_ITEMS[i] == items[i])
    }
}

#[test]
fn item_creator_grid_of_eleven() {
    let items = work_item_creator(CONFIG);
    assert_eq!(items.len(), 121);
    assert_eq!(items[10], WorkItem { initial_x: 0, final_x: 93, initial_y: 930, final_y: 1023 });
    assert_eq!(items[11], WorkItem { initial_x: 93, final_x: 186, initial_y: 0, final_y: 93 });
    assert_eq!(items[120], WorkItem { initial_x: 930, final_x: 1023, initial_y: 930, final_y: 1023 });
}

#[test]
fn tiles_are_disjoint_and_inside() {
    let config = Config { side_lengths: 50, num_blocks: 49, num_threads: 4, samples: 1, max_iter: 10 };
    let items = work_item_creator(config);
    assert_eq!(items.len(), 49);
    let mut seen = vec![0u32; 50 * 50];
    for t in items.iter() {
        assert!(t.initial_x < t.final_x && t.final_x <= 50);
        assert!(t.initial_y < t.final_y && t.final_y <= 50);
        for (x, y) in tile_cells(t) {
            seen[y * 50 + x] += 1;
        }
    }
    assert!(seen.iter().all(|&c| c <= 1));
    // 50 is not a multiple of 7: the last column and row are left out
    assert_eq!(seen.iter().filter(|&&c| c == 1).count(), 49 * 49);
}

#[test]
fn item_creator_edge_cases() {
    let none = Config { side_lengths: 10, num_blocks: 0, num_threads: 1, samples: 1, max_iter: 1 };
    assert!(work_item_creator(none).is_empty());
    let one = Config { side_lengths: 10, num_blocks: 3, num_threads: 1, samples: 1, max_iter: 1 };
    assert_eq!(work_item_creator(one), vec![WorkItem { initial_x: 0, final_x: 10, initial_y: 0, final_y: 10 }]);
}

#[test]
fn integer_sqrt_values() {
    assert_eq!(integer_sqrt(0), 0);
    assert_eq!(integer_sqrt(1), 1);
    assert_eq!(integer_sqrt(3), 1);
    assert_eq!(integer_sqrt(4), 2);
    assert_eq!(integer_sqrt(100), 10);
    assert_eq!(integer_sqrt(128), 11);
    assert_eq!(integer_sqrt(usize::MAX), 4294967295);
}

#[test]
fn tile_cells_column_by_column() {
    let t = WorkItem { initial_x: 2, final_x: 4, initial_y: 5, final_y: 8 };
    assert_eq!(tile_cells(&t), vec![(2, 5), (2, 6), (2, 7), (3, 5), (3, 6), (3, 7)]);
    let reversed = WorkItem { initial_x: 4, final_x: 2, initial_y: 5, final_y: 8 };
    assert!(tile_cells(&reversed).is_empty());
}

#[test]
fn mean_color_floors() {
    assert_eq!(mean_color(&vec![(255, 0, 10), (0, 0, 11)]), (127, 0, 10));
    assert_eq!(mean_color(&vec![(255, 255, 255); 200]), (255, 255, 255));
    assert_eq!(mean_color(&vec![(1, 2, 3), (2, 2, 2), (2, 3, 3)]), (1, 2, 2));
    assert_eq!(mean_color(&vec![]), (0, 0, 0));
}

#[test]
fn worker_one_pixel_per_cell() {
    let t = WorkItem { initial_x: 0, final_x: 3, initial_y: 10, final_y: 12 };
    let mut samples = Vec::new();
    for k in 0..6u8 {
        samples.push(vec![(k, 2 * k, 255), (k + 2, 0, 255)]);
    }
    let pixels = worker(&t, &samples);
    assert_eq!(pixels.len(), 6);
    let cells = tile_cells(&t);
    for k in 0..6usize {
        let p = pixels[k];
        assert_eq!((p.x, p.y), cells[k]);
        assert_eq!(p.r, k as u8 + 1);
        assert_eq!(p.g, k as u8);
        assert_eq!(p.b, 255);
    }
    assert_eq!((pixels[0].x, pixels[0].y), (0, 10));
    assert_eq!((pixels[1].x, pixels[1].y), (0, 11));
    assert_eq!((pixels[2].x, pixels[2].y), (1, 10));
}
