use rustos::curses::{Image, Window};
use rustos::fs::{bytes_to_str, file_close, file_exists, free_fd, FdtEntry, FileIterator, Stat, String, Superblock, SECTOR_SIZE};
use rustos::keyboard::{CircBuffer, Keyboard, LEFT_SHIFT, RIGHT_SHIFT};
use rustos::timer::{Timer, MAX_FREQ, MIN_FREQ};
use rustos::vga::{vga_init, Character, Color, ColorAttribute, Screen, BUFFER_WIDTH};

#[test]
fn check_timer_init() {
    let mut t = Timer::new();
    t.init(0);
    assert_eq!(t.get_freq(), MIN_FREQ);
    t.init(42);
    assert_eq!(t.get_freq(), 42);
    t.init(MAX_FREQ + 1);
    assert_eq!(t.get_freq(), MAX_FREQ);
}

#[test]
fn timer_ticks_and_deadline() {
    let mut t = Timer::new();
    t.init(100);
    assert_eq!(t.divisor(), 11931);
    t.tick();
    t.tick();
    assert_eq!(t.get_ticks(), 2);
    assert_eq!(t.deadline(250), 27);
    t.ticks = u32::MAX;
    t.tick();
    assert_eq!(t.get_ticks(), 0);
}

#[test]
fn colours_round_trip() {
    for c in 0..16u32 {
        assert_eq!(Color::to_u32(Color::from_u32(c)), c);
    }
    assert_eq!(Color::from_u32(16), Color::Black);
    assert_eq!(Color::to_u32(Color::Pink), 0xd);
    assert_eq!(ColorAttribute::new(Color::Blue, Color::Yellow), ColorAttribute(0x1e));
    assert_eq!(Character::null().attribute, ColorAttribute(0xf0));
    assert_eq!(Character::new(b'a', ColorAttribute(7)).ascii, b'a');
}

#[test]
fn screen_writes_wraps_and_scrolls() {
    let mut s = Screen::new(ColorAttribute(0x07));
    vga_init(&mut s, Color::Black, Color::White);
    assert_eq!(s.get_color(), ColorAttribute(0x0f));
    s.write("ab\nc");
    assert_eq!(s.buffer[0].ascii, b'a');
    assert_eq!(s.buffer[1].ascii, b'b');
    assert_eq!(s.buffer[BUFFER_WIDTH].ascii, b'c');
    assert_eq!(s.get_pos(), (BUFFER_WIDTH + 1) as u16);
    let line: std::string::String = std::iter::repeat('x').take(BUFFER_WIDTH + 1).collect();
    s.set_cursor(0, 3);
    s.write(&line);
    assert_eq!(s.buffer[4 * BUFFER_WIDTH].ascii, b'x');
    assert_eq!((s.cursor_x, s.cursor_y), (1, 4));
    s.set_cursor(5, 24);
    s.write("\n");
    assert_eq!(s.buffer[0].ascii, b'c');
    assert_eq!((s.cursor_x, s.cursor_y), (0, 24));
    s.set_color(Color::Red, Color::Green);
    assert_eq!(s.get_color(), ColorAttribute(0x42));
    s.clear();
    assert_eq!(s.buffer[0], Character::new(0, ColorAttribute(0x42)));
    assert_eq!(s.get_pos(), 0);
}

#[test]
fn keyboard_ring() {
    let mut b = CircBuffer::new();
    assert!(!b.keypressed());
    assert_eq!(b.read(), -1);
    b.write(97);
    b.write(98);
    assert!(b.keypressed());
    assert_eq!(b.read(), 97);
    assert_eq!(b.read(), 98);
    assert_eq!(b.read(), -1);
    for i in 0..31 {
        b.write(i);
    }
    assert_eq!(b.count, 30);
}

#[test]
fn file_records() {
    let name = bytes_to_str(b"hello\0\0junk");
    assert_eq!(name, b"hello".to_vec());
    assert_eq!(bytes_to_str(b"full"), b"full".to_vec());
    let s = Stat::null();
    assert_eq!(s.name.len(), 26);
    assert_eq!((s.size, s.start), (0, 0));
    let f = FdtEntry::null();
    assert_eq!(f.pos, 0);
    let mut raw = vec![0u8; SECTOR_SIZE];
    raw[13] = 4;
    raw[0x24] = 0x00;
    raw[0x25] = 0x02;
    raw[0x26] = 0x01;
    raw[0x2c] = 3;
    let sb = Superblock::new(&raw);
    assert_eq!((sb.block_size, sb.fat_size, sb.root_entry), (2048, 0x10200, 3));
    assert_eq!(Superblock::null().block_size, 0);
    let mut st = String { bytes_ptr: 0x1000, len: 4 };
    st.offset(0x10);
    assert_eq!(st.bytes_ptr, 0x1010);
}

#[test]
fn directory_walk() {
    let mut entries = vec![0u8; SECTOR_SIZE];
    entries[..5].copy_from_slice(b"shell");
    entries[480..484].copy_from_slice(b"demo");
    let mut it = FileIterator { sector: 7, offset: 0 };
    assert!(it.has_next(&entries));
    let n = it.next(&entries).unwrap();
    assert_eq!(&n[..5], b"shell");
    assert_eq!(n.len(), 26);
    assert_eq!((it.sector, it.offset), (7, 32));
    assert!(!it.has_next(&entries));
    assert_eq!(it.next(&entries), None);
    it.offset = 480;
    assert_eq!(&it.next(&entries).unwrap()[..4], b"demo");
    assert_eq!((it.sector, it.offset), (8, 0));
    let z = FileIterator::null();
    assert_eq!((z.sector, z.offset), (0, 0));
}

#[test]
fn windows_and_images() {
    let img = Image::new(b"##..".to_vec(), 2, 2);
    let w = Window::new(img, 3, 4, Color::Black, Color::LightGreen);
    assert_eq!((w.x, w.y, w.img.width, w.img.height), (3, 4, 2, 2));
    assert_eq!(w.color, ColorAttribute(0x0a));
    assert_eq!(w.img.content, b"##..".to_vec());
}

#[test]
fn directory_entry_and_file_table() {
    let mut entries = vec![0u8; SECTOR_SIZE];
    entries[64..69].copy_from_slice(b"hello");
    entries[64 + 26] = 0x05;
    entries[64 + 27] = 0x01;
    entries[64 + 28] = 0x34;
    entries[64 + 29] = 0x12;
    let st = Stat::from_entry(&entries, 64, b"hello".to_vec());
    assert_eq!((st.start, st.size, st.entry_offset), (0x105, 0x1234, 64));
    assert_eq!(st.name, b"hello".to_vec());

    let mut fdt: Vec<FdtEntry> = (0..4).map(|_| FdtEntry::null()).collect();
    assert_eq!(free_fd(&fdt), 0);
    fdt[0] = FdtEntry { stat: st, pos: 0 };
    assert_eq!(free_fd(&fdt), 1);
    assert_eq!(fdt[0].seek(0x1000), 0);
    assert_eq!(fdt[0].pos, 0x1000);
    assert_eq!(fdt[0].seek(0x1000), -1);
    assert_eq!(fdt[0].pos, 0x1234);
    assert_eq!(file_close(&mut fdt, 2), -1);
    assert_eq!(file_close(&mut fdt, -1), -1);
    assert_eq!(file_close(&mut fdt, 9), -1);
    assert_eq!(file_close(&mut fdt, 0), 0);
    assert_eq!(fdt[0].stat.start, 0);
    assert_eq!(free_fd(&fdt), 0);
}

#[test]
fn keyboard_scancodes() {
    let mut k = Keyboard::new();
    assert!(!k.keypressed());
    k.keyboard_handler(16);
    k.keyboard_handler(LEFT_SHIFT);
    assert!(k.shift);
    k.keyboard_handler(16);
    k.keyboard_handler(2);
    k.keyboard_handler(LEFT_SHIFT | 0x80);
    assert!(!k.shift);
    k.keyboard_handler(2);
    k.keyboard_handler(16 | 0x80);
    k.keyboard_handler(100);
    k.keyboard_handler(RIGHT_SHIFT);
    k.keyboard_handler(12);
    assert!(k.keypressed());
    let mut typed = Vec::new();
    loop {
        let c = k.buffer.read();
        if c == -1 {
            break;
        }
        typed.push(c);
    }
    assert_eq!(typed, vec![97, 65, 49, 38, 0xb0]);
}

#[test]
fn file_exists_walks_root_directory() {
    let mut root = vec![0u8; 2 * SECTOR_SIZE];
    root[0..5].copy_from_slice(b"shell");
    root[32..36].copy_from_slice(b"demo");
    root[96..101].copy_from_slice(b"ghost");
    assert!(file_exists(&root, b"shell"));
    assert!(file_exists(&root, b"demo"));
    assert!(!file_exists(&root, b"dem"));
    assert!(!file_exists(&root, b"ghost"));
    root[64] = b'x';
    assert!(file_exists(&root, b"ghost"));
    assert!(file_exists(&root, b"x"));
}
