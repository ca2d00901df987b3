use mu_config::debug_log::{enabled, log_line, Level};
use mu_config::interrupt::{CpuInterruptLib, CpuInterruptLibStd, CpuInterruptLibX64};
use mu_config::ring_log::RingBuffer;
use mu_config::text::{blank, chars_of};

#[test]
fn a_new_ring_is_empty() {
    let mut ring: RingBuffer<4> = RingBuffer::new();
    assert!(ring.is_empty());
    assert_eq!(ring.drain(), Vec::<u8>::new());
}

#[test]
fn bytes_are_read_in_the_order_written() {
    let mut ring: RingBuffer<4> = RingBuffer::new();
    ring.write(10);
    ring.write(20);
    assert!(!ring.is_empty());
    assert_eq!(ring.read(), 10);
    assert_eq!(ring.read(), 20);
    assert!(ring.is_empty());
}

#[test]
fn the_places_wrap_round_the_ring() {
    let mut ring: RingBuffer<3> = RingBuffer::new();
    ring.write(1);
    ring.write(2);
    assert_eq!(ring.read(), 1);
    assert_eq!(ring.read(), 2);
    ring.write(3);
    ring.write(4);
    assert_eq!(ring.drain(), vec![3, 4]);
    assert!(ring.is_empty());
    ring.write_all(&[5, 6]);
    assert_eq!(ring.read(), 5);
    assert_eq!(ring.read(), 6);
}

#[test]
fn a_ring_written_round_once_begins_anew() {
    let mut ring: RingBuffer<3> = RingBuffer::new();
    ring.write_all(&[1, 2, 3]);
    assert!(ring.is_empty());
    ring.write(4);
    assert_eq!(ring.drain(), vec![4]);
    assert_eq!(ring.read(), 2);
}

#[test]
fn reading_an_empty_ring_hands_out_what_stands_there() {
    let mut ring: RingBuffer<2> = RingBuffer::new();
    assert_eq!(ring.read(), 0);
    assert_eq!(ring.drain(), vec![0]);
}

#[test]
fn a_message_is_drained_as_it_was_written() {
    let mut ring: RingBuffer<1024> = RingBuffer::new();
    let line = log_line("INFO", "Starting DXE Core...");
    ring.write_all(line.as_bytes());
    assert_eq!(ring.drain(), b"INFO - Starting DXE Core...\n".to_vec());
    ring.write_all(&[]);
    assert!(ring.is_empty());
}

#[test]
fn records_are_logged_down_to_debug() {
    assert!(enabled(Level::Error));
    assert!(enabled(Level::Warn));
    assert!(enabled(Level::Info));
    assert!(enabled(Level::Debug));
    assert!(!enabled(Level::Trace));
    assert_eq!(log_line("DEBUG", ""), "DEBUG - \n");
}

#[test]
fn the_interrupt_libraries_set_nothing_up() {
    CpuInterruptLibX64::init();
    CpuInterruptLibStd::init();
}

#[test]
fn text_is_read_by_characters() {
    assert_eq!(chars_of(" ä, b \t"), vec![' ', 'ä', ',', ' ', 'b', ' ', '\t']);
    assert_eq!(chars_of(""), Vec::<char>::new());
    assert!(blank(' ') && blank('\t') && blank('\n') && blank('\r'));
    assert!(!blank('a') && !blank('\u{a0}'));
}
