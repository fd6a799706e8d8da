use gba_gfx::graphics::Display;
use gba_gfx::graphics::VsyncPhase;
use gba_gfx::graphics::vsync_step;
use gba_gfx::graphics::PAGE_WORDS;
use gba_gfx::graphics::VRAM_WORDS;
use gba_gfx::input::InputHandler;
use gba_gfx::input::Key;
use gba_gfx::vec2::Vec2;

const BLACK: u16 = 0x0000;
const RED: u16 = 0x001F;
const YELLOW: u16 = 0x03FF;
const MAGENTA: u16 = 0x7C1F;
const WHITE: u16 = 0x7FFF;

const MODE3: u16 = 0x0403;
const MODE5: u16 = 0x0405;

fn count_words(d: &Display, color: u16) -> usize {
    let mut n: usize = 0;
    for i in 0..VRAM_WORDS {
        if d.vram_word(i) == color {
            n += 1;
        }
    }
    n
}

// S1: mode 3, cleared to black, one red point at (5, 7).
#[test]
fn single_pixel_mode3() {
    let mut d = Display::new();
    d.set_display_mode(MODE3);
    assert_eq!(d.video_mode(), 3);
    d.point(Vec2::new(5, 7), RED);
    assert_eq!(d.vram_word(7 * 240 + 5), RED);
    for i in 0..VRAM_WORDS {
        if i != 7 * 240 + 5 {
            assert_eq!(d.vram_word(i), BLACK);
        }
    }
}

// S2: a filled inclusive rectangle covers 41 x 41 = 1681 pixels.
#[test]
fn filled_rect_inclusive() {
    let mut d = Display::new();
    d.set_display_mode(MODE3);
    d.rect(Vec2::new(20, 20), 40, 40, YELLOW);
    for y in 20..=60u32 {
        for x in 20..=60u32 {
            assert_eq!(d.vram_word((y * 240 + x) as usize), YELLOW);
        }
    }
    assert_eq!(count_words(&d, YELLOW), 41 * 41);
}

// S3: a rectangle outline colors the four edges and leaves the interior.
#[test]
fn rect_frame_edges_only() {
    let mut d = Display::new();
    d.set_display_mode(MODE3);
    d.frame(Vec2::new(20, 20), 40, 40, MAGENTA);
    for t in 20..=60u32 {
        assert_eq!(d.vram_word((20 * 240 + t) as usize), MAGENTA);
        assert_eq!(d.vram_word((60 * 240 + t) as usize), MAGENTA);
        assert_eq!(d.vram_word((t * 240 + 20) as usize), MAGENTA);
        assert_eq!(d.vram_word((t * 240 + 60) as usize), MAGENTA);
    }
    assert_eq!(d.vram_word(30 * 240 + 30), BLACK);
    assert_eq!(count_words(&d, MAGENTA), 4 * 41 - 4);
}

// S4: the diagonal walk from (0,0) to (5,3) visits the expected pixels.
#[test]
fn diagonal_line_pixels() {
    let mut d = Display::new();
    d.set_display_mode(MODE3);
    d.line(Vec2::new(0, 0), Vec2::new(5, 3), WHITE);
    let expected = [(0u32, 0u32), (1, 1), (2, 1), (3, 2), (4, 2), (5, 3)];
    for (x, y) in expected {
        assert_eq!(d.vram_word((y * 240 + x) as usize), WHITE);
    }
    assert_eq!(count_words(&d, WHITE), expected.len());
}

// P5: horizontal and vertical lines write exactly their inclusive spans,
// end points included.
#[test]
fn axis_lines_exact_spans() {
    let mut d = Display::new();
    d.set_display_mode(MODE3);
    d.line(Vec2::new(3, 10), Vec2::new(9, 10), RED);
    for x in 3..=9u32 {
        assert_eq!(d.vram_word((10 * 240 + x) as usize), RED);
    }
    assert_eq!(count_words(&d, RED), 7);

    let mut v = Display::new();
    v.set_display_mode(MODE3);
    v.line(Vec2::new(4, 2), Vec2::new(4, 8), WHITE);
    for y in 2..=8u32 {
        assert_eq!(v.vram_word((y * 240 + 4) as usize), WHITE);
    }
    assert_eq!(count_words(&v, WHITE), 7);
}

// P5: both end points of a diagonal line are written.
#[test]
fn diagonal_line_endpoints() {
    let mut d = Display::new();
    d.set_display_mode(MODE3);
    d.line(Vec2::new(30, 40), Vec2::new(7, 21), RED);
    assert_eq!(d.vram_word(40 * 240 + 30), RED);
    assert_eq!(d.vram_word(21 * 240 + 7), RED);
}

// P6: for axis-aligned lines, swapping the end points writes the same bytes.
#[test]
fn axis_line_symmetry() {
    let mut a = Display::new();
    a.set_display_mode(MODE3);
    a.line(Vec2::new(3, 10), Vec2::new(9, 10), RED);
    let mut b = Display::new();
    b.set_display_mode(MODE3);
    b.line(Vec2::new(9, 10), Vec2::new(3, 10), RED);
    for i in 0..VRAM_WORDS {
        assert_eq!(a.vram_word(i), b.vram_word(i));
    }
}

// For this diagonal the two drawing directions happen to agree.
#[test]
fn diagonal_symmetry_odd_deltas() {
    let mut a = Display::new();
    a.set_display_mode(MODE3);
    a.line(Vec2::new(0, 0), Vec2::new(5, 3), WHITE);
    let mut b = Display::new();
    b.set_display_mode(MODE3);
    b.line(Vec2::new(5, 3), Vec2::new(0, 0), WHITE);
    for i in 0..VRAM_WORDS {
        assert_eq!(a.vram_word(i), b.vram_word(i));
    }
}

// Where the doubled error ties against an even delta, the two directions
// choose different side pixels: endpoint order is visible on diagonals.
#[test]
fn diagonal_tie_asymmetry() {
    let mut a = Display::new();
    a.set_display_mode(MODE3);
    a.line(Vec2::new(0, 0), Vec2::new(2, 1), WHITE);
    assert_eq!(a.vram_word(0), WHITE);
    assert_eq!(a.vram_word(1), WHITE); // passes through (1, 0)
    assert_eq!(a.vram_word(240 + 2), WHITE);

    let mut b = Display::new();
    b.set_display_mode(MODE3);
    b.line(Vec2::new(2, 1), Vec2::new(0, 0), WHITE);
    assert_eq!(b.vram_word(0), WHITE);
    assert_eq!(b.vram_word(240 + 1), WHITE); // passes through (1, 1)
    assert_eq!(b.vram_word(240 + 2), WHITE);
    assert_eq!(b.vram_word(1), 0x0000);
}

// P3: drawing the same primitives from the same state gives the same bytes,
// and drawing them a second time changes nothing.
#[test]
fn drawing_is_deterministic_and_idempotent() {
    let mut a = Display::new();
    a.set_display_mode(MODE3);
    a.rect(Vec2::new(1, 2), 5, 6, YELLOW);
    a.line(Vec2::new(0, 0), Vec2::new(20, 11), RED);
    let mut b = Display::new();
    b.set_display_mode(MODE3);
    b.rect(Vec2::new(1, 2), 5, 6, YELLOW);
    b.line(Vec2::new(0, 0), Vec2::new(20, 11), RED);
    for i in 0..VRAM_WORDS {
        assert_eq!(a.vram_word(i), b.vram_word(i));
    }
    b.rect(Vec2::new(1, 2), 5, 6, YELLOW);
    b.line(Vec2::new(0, 0), Vec2::new(20, 11), RED);
    for i in 0..VRAM_WORDS {
        assert_eq!(a.vram_word(i), b.vram_word(i));
    }
}

// A single-pixel rectangle: extents 0 x 0 still cover one pixel.
#[test]
fn rect_zero_extents() {
    let mut d = Display::new();
    d.set_display_mode(MODE3);
    d.rect(Vec2::new(0, 0), 0, 0, RED);
    assert_eq!(d.vram_word(0), RED);
    assert_eq!(count_words(&d, RED), 1);
}

// Mode 5 uses the shorter row stride.
#[test]
fn mode5_stride() {
    let mut d = Display::new();
    d.set_display_mode(MODE5);
    assert_eq!(d.video_mode(), 5);
    d.point(Vec2::new(5, 7), RED);
    assert_eq!(d.vram_word(7 * 160 + 5), RED);
}

// S6 / P7: two page flips restore the page offset and the register; drawing
// at (0,0) then writes to the original page again.
#[test]
fn page_flip_cycle() {
    let mut d = Display::new();
    d.set_display_mode(MODE5);
    let ctrl0 = d.display_control();
    assert_eq!(d.page_offset(), 0);
    d.flip_page();
    assert_eq!(d.page_offset(), PAGE_WORDS);
    assert_ne!(d.display_control(), ctrl0);
    d.point(Vec2::new(0, 0), RED);
    assert_eq!(d.vram_word(PAGE_WORDS), RED);
    d.flip_page();
    assert_eq!(d.page_offset(), 0);
    assert_eq!(d.display_control(), ctrl0);
    d.point(Vec2::new(0, 0), WHITE);
    assert_eq!(d.vram_word(0), WHITE);
    assert_eq!(d.vram_word(PAGE_WORDS), RED);
}

// The vertical-blank wait leaves a blank already in progress, waits out the
// draw, and finishes at the first fresh blank sample.
#[test]
fn vsync_phase_walk() {
    let mut ph = VsyncPhase::AwaitVdraw;
    ph = vsync_step(ph, 170);
    assert_eq!(ph, VsyncPhase::AwaitVdraw);
    ph = vsync_step(ph, 10);
    assert_eq!(ph, VsyncPhase::AwaitVblank);
    ph = vsync_step(ph, 159);
    assert_eq!(ph, VsyncPhase::AwaitVblank);
    ph = vsync_step(ph, 160);
    assert_eq!(ph, VsyncPhase::Done);
    ph = vsync_step(ph, 0);
    assert_eq!(ph, VsyncPhase::Done);
}

// S5: previous sample has no buttons, current has A pressed (active-low).
#[test]
fn keypad_hit() {
    let mut h = InputHandler::new();
    h.poll(0xFFFF);
    h.poll(0xFFFE);
    assert!(h.key_hit(Key::A));
    assert!(h.key_down(Key::A));
    assert!(!h.key_released(Key::A));
    assert!(!h.key_held(Key::A));
    assert!(!h.key_down(Key::B));
}

// P8: the four edge predicates partition the four sample combinations.
#[test]
fn keypad_edge_partition() {
    let cases = [
        (0xFFFFu16, 0xFFFFu16, false, false, false), // idle
        (0xFFFF, 0xFFFE, true, false, false),        // hit
        (0xFFFE, 0xFFFE, false, true, false),        // held
        (0xFFFE, 0xFFFF, false, false, true),        // released
    ];
    for (prev, curr, hit, held, released) in cases {
        let mut h = InputHandler::new();
        h.poll(prev);
        h.poll(curr);
        assert_eq!(h.key_hit(Key::A), hit);
        assert_eq!(h.key_held(Key::A), held);
        assert_eq!(h.key_released(Key::A), released);
        let down = h.key_down(Key::A);
        let idle = !down && !h.key_released(Key::A);
        let exactly_one =
            [hit, held, released, idle].iter().filter(|b| **b).count();
        assert_eq!(exactly_one, 1);
    }
}

// P9: after a poll, `previous` is the `current` from just before the call.
#[test]
fn poll_history() {
    let mut h = InputHandler::new();
    assert_eq!(h.current_input(), 0);
    assert_eq!(h.previous_input(), 0);
    h.poll(0x1234);
    assert_eq!(h.current_input(), 0x1234);
    assert_eq!(h.previous_input(), 0);
    h.poll(0x5678);
    assert_eq!(h.current_input(), 0x5678);
    assert_eq!(h.previous_input(), 0x1234);
}

// Every key maps to its own register bit.
#[test]
fn key_masks() {
    let keys = [
        (Key::A, 0x0001u16),
        (Key::B, 0x0002),
        (Key::SELECT, 0x0004),
        (Key::START, 0x0008),
        (Key::RIGHT, 0x0010),
        (Key::LEFT, 0x0020),
        (Key::UP, 0x0040),
        (Key::DOWN, 0x0080),
        (Key::R, 0x0100),
        (Key::L, 0x0200),
    ];
    for (key, mask) in keys {
        assert_eq!(key.mask(), mask);
        let mut h = InputHandler::new();
        h.poll(0xFFFF);
        h.poll(!mask);
        assert!(h.key_down(key));
        assert!(h.key_hit(key));
    }
}
