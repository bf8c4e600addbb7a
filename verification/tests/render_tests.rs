use mazewars::client::{draw_text, glyph_bits, App, FpsCounter};
use mazewars::config::{MaxClients, MazeWarsServerPlugin};
use mazewars::render::{
    draw_background, draw_disc, draw_hline, draw_maze_into, draw_players, draw_vline, rgb,
};
use mazewars::world::Player;

#[test]
fn rgb_packs_channels() {
    assert_eq!(rgb(1, 2, 3), 0x010203);
    assert_eq!(rgb(255, 0, 128), 0xFF0080);
}

#[test]
fn hline_paints_one_row_segment() {
    let mut buf = vec![0u32; 12]; // 4 x 3
    draw_hline(&mut buf, 4, 1, 1, 2, 9);
    assert_eq!(buf, vec![0, 0, 0, 0, 0, 9, 9, 0, 0, 0, 0, 0]);
    // a row outside the buffer is ignored
    draw_hline(&mut buf, 4, 7, 0, 3, 9);
    assert_eq!(buf[0], 0);
}

#[test]
fn vline_paints_one_column_segment() {
    let mut buf = vec![0u32; 12]; // 4 x 3
    draw_vline(&mut buf, 4, 2, 0, 1, 5);
    assert_eq!(buf, vec![0, 0, 5, 0, 0, 0, 5, 0, 0, 0, 0, 0]);
}

#[test]
fn background_draws_grid_every_twenty_pixels() {
    let (w, h) = (40usize, 40usize);
    let mut buf = vec![7u32; w * h];
    draw_background(&mut buf, w, h);
    let line = rgb(60, 60, 70);
    let bg = rgb(16, 16, 20);
    assert_eq!(buf[0], line);
    assert_eq!(buf[20], line); // x % 20 == 0
    assert_eq!(buf[20 * w + 3], line); // y % 20 == 0
    assert_eq!(buf[1 * w + 1], bg);
    assert_eq!(buf[19 * w + 19], bg);
}

#[test]
fn maze_scaling_paints_wall_rectangles() {
    // 2 x 2 maze into a 4 x 4 framebuffer: each cell covers 2 x 2 pixels
    let cells = vec![0u8, 1, 1, 0];
    let mut buf = vec![0u32; 16];
    draw_maze_into(&mut buf, 4, 4, 2, 2, &cells);
    let wall = rgb(200, 200, 200);
    let bg = rgb(16, 16, 20);
    assert_eq!(buf[0], bg); // cell (0,0) open
    assert_eq!(buf[2], wall); // cell (1,0) wall
    assert_eq!(buf[3], wall);
    assert_eq!(buf[1 * 4 + 2], wall);
    assert_eq!(buf[2 * 4 + 0], wall); // cell (0,1) wall
    assert_eq!(buf[3 * 4 + 3], bg); // cell (1,1) open
}

#[test]
fn disc_fills_inside_radius_only() {
    let mut buf = vec![0u32; 25]; // 5 x 5
    draw_disc(&mut buf, 5, 2, 2, 1, 8);
    assert_eq!(buf[2 * 5 + 2], 8);
    assert_eq!(buf[2 * 5 + 1], 8);
    assert_eq!(buf[2 * 5 + 3], 8);
    assert_eq!(buf[1 * 5 + 2], 8);
    assert_eq!(buf[3 * 5 + 2], 8);
    assert_eq!(buf[0], 0); // corner untouched
    assert_eq!(buf[1 * 5 + 1], 0); // diagonal is outside radius 1
}

#[test]
fn players_paint_with_their_colors() {
    let (w, h) = (40usize, 40usize);
    let mut buf = vec![0u32; w * h];
    let players = vec![Player { id: 1, x: 0, y: 0 }, Player { id: 2, x: 3, y: 3 }];
    let colors = vec![0xAA, 0xBB];
    draw_players(&mut buf, w, h, 4, 4, &players, &colors);
    // every pixel is either untouched or one of the player colors
    assert!(buf.iter().all(|&p| p == 0 || p == 0xAA || p == 0xBB));
    assert!(buf.iter().any(|&p| p == 0xAA));
    assert!(buf.iter().any(|&p| p == 0xBB));
}

#[test]
fn glyphs_cover_digits_and_fps_letters() {
    for ch in ['0', '5', '9', 'F', 'P', 'S', ':', ' '] {
        assert!(glyph_bits(ch).is_some());
    }
    assert!(glyph_bits('x').is_none());
    assert_eq!(glyph_bits('1').unwrap()[0], 0b00100);
}

#[test]
fn text_stays_in_its_band() {
    let (w, h) = (40usize, 10usize);
    let mut buf = vec![0u32; w * h];
    draw_text(&mut buf, w, 0, 1, "1", 7, None);
    // the top row of glyph '1' is 0b00100: bit at column 2
    assert_eq!(buf[1 * w + 2], 7);
    // rows outside y..y+7 are untouched
    for x in 0..w {
        assert_eq!(buf[x], 0);
        assert_eq!(buf[9 * w + x], 0);
    }
}

#[test]
fn text_background_fills_glyph_box() {
    let (w, h) = (40usize, 10usize);
    let mut buf = vec![0u32; w * h];
    draw_text(&mut buf, w, 0, 0, " ", 7, Some(3));
    // a space glyph paints only the background box
    assert_eq!(buf[0], 3);
    assert_eq!(buf[5], 3);
    assert_eq!(buf[6], 0); // past the 6-pixel box
}

#[test]
fn fps_counter_publishes_each_second() {
    let mut c = FpsCounter::new();
    assert_eq!((c.frames, c.fps), (0, 0));
    c.tick(500);
    assert_eq!((c.frames, c.fps), (1, 0));
    c.tick(600); // 1100 ms accumulated: publish two frames
    assert_eq!((c.frames, c.fps), (0, 2));
    assert_eq!(c.in_second_ms, 0);
    c.tick(100);
    assert_eq!((c.frames, c.fps), (1, 2));
}

#[test]
fn app_new_stores_connection_details() {
    let app = App::new("127.0.0.1:5000".to_string(), "Ana".to_string(), false);
    assert_eq!(app.server_addr, "127.0.0.1:5000");
    assert_eq!(app.username, "Ana");
    assert!(!app.connected);
}

#[test]
fn server_config_defaults() {
    let cfg = MazeWarsServerPlugin::default();
    assert_eq!(cfg.bind_addr, "0.0.0.0:5000");
    assert_eq!(cfg.max_clients, 32);
    assert_eq!(MaxClients(5).0, 5);
}
