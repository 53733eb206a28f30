use twilight_kernel::console::framebuffer::{get_glyph, Font, FramebufferTerminal, Glyph};
use twilight_kernel::console::init_program;

const BG: u32 = 0x101010;
const FG: u32 = 0xFFFFFF;

fn font() -> Font {
    Font {
        glyphs: vec![
            Glyph { char: 'A' as u32, rows: vec![0x81; 16] },
            Glyph { char: ' ' as u32, rows: vec![0; 16] },
            Glyph { char: '?' as u32, rows: vec![0xFF; 16] },
            Glyph { char: 0x20AC, rows: vec![0x18; 16] },
        ],
    }
}

/// Three columns and two rows of characters.
fn screen() -> FramebufferTerminal {
    FramebufferTerminal::new(24, 32)
}

fn cell_row(t: &FramebufferTerminal, col: usize, row: usize) -> Vec<u32> {
    let at = row * 16 * t.width + col * 8;
    t.pixels[at..at + 8].to_vec()
}

const A: [u32; 8] = [FG, BG, BG, BG, BG, BG, BG, FG];

#[test]
fn a_new_screen_shows_the_cursor() {
    let t = screen();
    assert_eq!(cell_row(&t, 0, 0), vec![FG; 8]);
    assert_eq!(cell_row(&t, 1, 0), vec![BG; 8]);
    assert!(t.cursor_drawn);
}

#[test]
fn text_is_drawn_from_left_to_right() {
    let mut t = screen();
    t.write(b"A", &font());
    assert_eq!(cell_row(&t, 0, 0), A.to_vec());
    assert_eq!((t.cursor_x, t.cursor_y), (1, 0));
    t.set_reverse(true);
    t.write(b"A", &font());
    assert_eq!(cell_row(&t, 1, 0), A.iter().map(|c| if *c == FG { BG } else { FG }).collect::<Vec<u32>>());
}

#[test]
fn lines_wrap_and_scroll() {
    let mut t = screen();
    let f = font();
    t.write(b"AAA", &f);
    assert_eq!((t.cursor_x, t.cursor_y), (3, 0));
    t.write(b"A", &f);
    assert_eq!((t.cursor_x, t.cursor_y), (1, 1));
    t.write(b"\n", &f);
    assert_eq!((t.cursor_x, t.cursor_y), (0, 1));
    assert_eq!(cell_row(&t, 0, 0), A.to_vec());
    assert_eq!(cell_row(&t, 1, 0), vec![BG; 8]);
    assert_eq!(cell_row(&t, 0, 1), vec![BG; 8]);
    t.write(b"A\rA", &f);
    assert_eq!(t.cursor_x, 1);
}

#[test]
fn backspace_empties_the_cell_before() {
    let mut t = screen();
    let f = font();
    t.write(b"A\x08", &f);
    assert_eq!(t.cursor_x, 0);
    assert_eq!(cell_row(&t, 0, 0), vec![BG; 8]);
    t.write(b"\x7f", &f);
    assert_eq!(t.cursor_x, 0);
}

#[test]
fn characters_of_several_bytes() {
    let mut t = screen();
    let f = font();
    t.put_byte(0xE2, &f);
    t.put_byte(0x82, &f);
    assert_eq!(t.cursor_x, 0);
    t.put_byte(0xAC, &f);
    assert_eq!(t.cursor_x, 1);
    assert_eq!(cell_row(&t, 0, 0), vec![BG, BG, BG, FG, FG, BG, BG, BG]);
    for _ in 0..3 {
        t.put_byte(0xFF, &f);
    }
    assert_eq!(t.cursor_x, 1);
    t.put_byte(0xFF, &f);
    assert_eq!(t.cursor_x, 2);
    assert_eq!(cell_row(&t, 1, 0), vec![FG; 8]);
    t.put_byte(7, &f);
    assert_eq!(cell_row(&t, 2, 0), vec![FG; 8]);
}

#[test]
fn the_cursor_hides_nothing() {
    let mut t = screen();
    let f = font();
    t.write(b"AA\r", &f);
    let before = t.pixels.clone();
    t.refresh_cursor();
    assert_eq!(cell_row(&t, 0, 0), vec![FG; 8]);
    t.set_cursor_visible(false);
    assert_eq!(t.pixels, before);
    t.refresh_cursor();
    assert_eq!(t.pixels, before);
    t.set_cursor_visible(true);
    assert_eq!(cell_row(&t, 0, 0), vec![FG; 8]);
}

#[test]
fn parts_of_the_screen_are_cleared() {
    let f = font();
    let mut t = screen();
    t.set_cursor_visible(false);
    t.write(b"AAA\nAA", &f);
    t.cursor_x = 1;
    t.erase_in_line_from_cursor();
    assert_eq!(cell_row(&t, 0, 1), A.to_vec());
    assert_eq!(cell_row(&t, 1, 1), vec![BG; 8]);
    t.cursor_y = 0;
    t.erase_in_line_to_cursor();
    assert_eq!(cell_row(&t, 0, 0), vec![BG; 8]);
    assert_eq!(cell_row(&t, 1, 0), A.to_vec());
    t.erase_display_from_cursor();
    assert_eq!(cell_row(&t, 1, 0), vec![BG; 8]);
    assert_eq!(cell_row(&t, 0, 1), vec![BG; 8]);
    t.write(b"A\nAA", &f);
    t.cursor_x = 1;
    t.erase_display_to_cursor();
    assert_eq!(cell_row(&t, 1, 0), vec![BG; 8]);
    assert_eq!(cell_row(&t, 0, 1), vec![BG; 8]);
    assert_eq!(cell_row(&t, 1, 1), A.to_vec());
    t.erase_line();
    assert_eq!(cell_row(&t, 1, 1), vec![BG; 8]);
    assert_eq!(t.cursor_x, 0);
    t.set_color(3);
    t.set_bg(4);
    assert!(t.pixels.iter().all(|p| *p == 4));
    t.write(b"A", &f);
    t.clear();
    assert!(t.pixels.iter().all(|p| *p == 4));
    assert_eq!((t.cursor_x, t.cursor_y), (0, 0));
}

#[test]
fn cells_outside_the_screen_have_no_rectangle() {
    let t = screen();
    assert_eq!(t.cursor_rect(2, 1), Some((16, 16, 8, 16)));
    assert_eq!(t.cursor_rect(3, 0), None);
    assert_eq!(t.cursor_rect(0, 2), None);
    assert_eq!(t.cursor_rect(usize::MAX, 0), None);
}

#[test]
fn a_font_may_lack_a_glyph() {
    let f = font();
    assert!(get_glyph(&f, 'B' as u32).is_none());
    assert_eq!(get_glyph(&f, 'A' as u32).unwrap(), &vec![0x81; 16]);
}

#[test]
fn the_first_program() {
    assert_eq!(init_program(0), Some("/sbin/twinit"));
    assert_eq!(init_program(1), Some("/bin/twinit"));
    assert_eq!(init_program(2), Some("/bin/init"));
    assert_eq!(init_program(3), None);
}
