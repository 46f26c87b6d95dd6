use mandelbrot::config::Config;
use mandelbrot::framebuffer::{buffer_updater, write_pixel};
use mandelbrot::pixel::{rgb_to_u32, Pixel};
use mandelbrot::tiles::work_item_creator;
use mandelbrot::worker::{tile_cells, worker};

fn black_everywhere(config: Config) {
    let size = config.side_lengths;
    let mut buffer = vec![rgb_to_u32(255, 255, 255); size * size];
    let result: Vec<u32> = vec![0; size * size];
    let mut pixels = Vec::new();
    for x in 0..size {
        for y in 0..size {
            pixels.push(Pixel { x, y, r: 0, g: 0, b: 0 });
        }
    }
    buffer_updater(&mut buffer, &pixels, config);
    for i in 0..result.len() {
        assert_eq!(buffer[i], result[i]);
    }
}

#[test]
fn main_test_buffer_updater() {
    black_everywhere(Config { side_lengths: 100, num_blocks: 128, num_threads: 10, samples: 200, max_iter: 500 });
}

#[test]
fn mandelbrot_test_buffer_updater() {
    black_everywhere(Config { side_lengths: 100, num_blocks: 128, num_threads: 1, samples: 200, max_iter: 500 });
}

#[test]
fn later_pixel_wins() {
    let config = Config { side_lengths: 4, num_blocks: 4, num_threads: 1, samples: 1, max_iter: 1 };
    let mut buffer = vec![7u32; 16];
    let pixels = vec![
        Pixel { x: 1, y: 2, r: 1, g: 2, b: 3 },
        Pixel { x: 3, y: 0, r: 0, g: 0, b: 9 },
        Pixel { x: 1, y: 2, r: 255, g: 0, b: 0 },
    ];
    buffer_updater(&mut buffer, &pixels, config);
    assert_eq!(buffer[9], 16711680);
    assert_eq!(buffer[3], 9);
    assert_eq!(buffer.iter().filter(|&&w| w == 7).count(), 14);
}

#[test]
fn write_pixel_packs_at_index() {
    let mut buffer = vec![0u32; 9];
    write_pixel(&mut buffer, Pixel { x: 2, y: 1, r: 0x12, g: 0x34, b: 0x56 }, 3);
    assert_eq!(buffer[5], 0x123456);
    assert_eq!(buffer.iter().filter(|&&w| w == 0).count(), 8);
}

#[test]
fn every_index_written_when_side_divides() {
    let config = Config { side_lengths: 100, num_blocks: 100, num_threads: 10, samples: 1, max_iter: 500 };
    let mut buffer = vec![0xFF00_0000u32; 100 * 100];
    for t in work_item_creator(config).iter() {
        let samples: Vec<Vec<(u8, u8, u8)>> = tile_cells(t).iter().map(|_| vec![(0, 0, 0)]).collect();
        let pixels = worker(t, &samples);
        buffer_updater(&mut buffer, &pixels, config);
    }
    assert!(buffer.iter().all(|&w| w == 0));
}
