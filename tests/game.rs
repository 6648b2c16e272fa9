use suroi::ansi_coloring::{style_text, DATETIME_STYLE, WARN_STYLE};
use suroi::bitstream::{BitStream, StreamError};
use suroi::constants::{ObjectCategory, TeamSize};
use suroi::decimal::DecimalSerializer;
use suroi::misc::remove_from;
use suroi::object_pool::{GameObject, ObjectPool};
use suroi::suroi_bitstream::SuroiBitStream;
use suroi::typings::Orientation;

#[test]
fn style_text_wraps_in_escapes() {
    assert_eq!(style_text("hi", &[DATETIME_STYLE, 1]), "\u{1b}[92;1mhi\u{1b}[0m");
    assert_eq!(style_text("[WARNING]", &[WARN_STYLE]), "\u{1b}[33m[WARNING]\u{1b}[0m");
    assert_eq!(style_text("x", &[]), "\u{1b}[mx\u{1b}[0m");
    assert_eq!(style_text("é", &[105, 7]), "\u{1b}[105;7mé\u{1b}[0m");
}

#[test]
fn remove_first_match() {
    let mut v = vec![1, 2, 3, 2];
    remove_from(&mut v, 2);
    assert_eq!(v, vec![1, 3, 2]);
    remove_from(&mut v, 5);
    assert_eq!(v, vec![1, 3, 2]);
}

#[test]
fn object_pool_tracks_objects() {
    let mut pool = ObjectPool::new();
    let a = GameObject { category: ObjectCategory::Player, id: 1 };
    let b = GameObject { category: ObjectCategory::Loot, id: 2 };
    pool.add(a);
    pool.add(b);
    assert_eq!(pool.get_size(), 2);
    assert!(pool.has(a));
    assert!(pool.has_id(2));
    assert!(pool.category_has(a));
    assert!(!pool.category_has(GameObject { category: ObjectCategory::Loot, id: 1 }));
    assert_eq!(pool.get(2), Some(b));
    assert!(pool.get_category(ObjectCategory::Loot).contains(&2));
    let mut all = pool.iter();
    all.sort_by_key(|o| o.id);
    assert_eq!(all, vec![a, b]);
    pool.delete(a);
    assert!(!pool.has(a));
    assert!(!pool.category_has(a));
    assert_eq!(pool.get(1), None);
    pool.clear();
    assert_eq!(pool.get_size(), 0);
    assert!(!pool.category_has(b));
}

#[test]
fn team_sizes() {
    assert_eq!(TeamSize::Solo.size(), 1);
    assert_eq!(TeamSize::Squad.size(), 4);
    assert_eq!(ObjectCategory::SyncedParticle.index(), 8);
}

#[test]
fn decimal_layout_constants() {
    let q = DecimalSerializer::new(8, 3);
    assert_eq!(q.bits(), 8);
    assert_eq!(q.mantissa_width(), 4);
    assert_eq!(q.exponent_bias(), 3);
    assert_eq!(q.special_exp(), 7);
    assert_eq!(q.hidden_bit(), 16);
    let u = DecimalSerializer::new_unsigned(8, 3);
    assert_eq!(u.mantissa_width(), 5);
    assert!(!u.signed());
    let d = DecimalSerializer::new(64, 11);
    assert_eq!(d.exponent_bias(), 1023);
    assert_eq!(d.special_exp(), 2047);
    assert_eq!(d.hidden_bit(), 1u128 << 52);
}

#[test]
fn decimal_fields() {
    let d = DecimalSerializer::new(64, 11);
    // 1.5 as a double
    let pattern = 0x3FF8_0000_0000_0000u128;
    assert_eq!(d.split(pattern), (false, 1023, 1u128 << 51));
    assert_eq!(d.compose(false, 1023, 1u128 << 51), pattern);
    // -0.5 as a quarter-precision float: sign, exponent 2, mantissa 0
    let q = DecimalSerializer::new(8, 3);
    assert_eq!(q.compose(true, 2, 0), 0b1010_0000);
    assert_eq!(q.split(0b1010_0000), (true, 2, 0));
    let u = DecimalSerializer::new_unsigned(8, 3);
    assert_eq!(u.split(0b1010_0000), (false, 5, 0));
}

#[test]
fn wire_helpers_round_trip() {
    let mut s = SuroiBitStream::new(32);
    s.write_object_id(8191).unwrap();
    s.write_variation(5).unwrap();
    s.write_align_to_next_byte().unwrap();
    assert_eq!(s.get_index(), 16);
    s.write_player_name("Player").unwrap();
    assert_eq!(s.get_index(), 16 + 128);
    let bytes = s.stream().to_bytes();
    assert_eq!(&bytes[2..8], b"Player");
    assert_eq!(&bytes[8..18], &[0u8; 10]);
    let mut r = SuroiBitStream::from_stream(BitStream::from_bytes(&bytes));
    assert_eq!(r.read_object_id().unwrap(), 8191);
    assert_eq!(r.read_variation().unwrap(), 5);
    r.read_align_to_next_byte().unwrap();
    assert_eq!(r.read_player_name().unwrap(), "Player");
    assert_eq!(r.get_index(), 16 + 128);
}

#[test]
fn wire_helpers_without_room() {
    let mut s = SuroiBitStream::new(1);
    assert_eq!(s.write_object_id(1), Err(StreamError::OutOfBounds));
    assert_eq!(s.write_player_name("a"), Err(StreamError::OutOfBounds));
    assert_eq!(s.read_player_name(), Err(StreamError::OutOfBounds));
    assert_eq!(s.get_index(), 0);
}

#[test]
fn rotation_and_scale_are_skipped() {
    let mut s = SuroiBitStream::new(4);
    s.read_rotation(10).unwrap();
    assert_eq!(s.get_index(), 10);
    s.read_scale(8).unwrap();
    assert_eq!(s.get_index(), 18);
    assert_eq!(s.bits_left(), 14);
}

#[test]
fn align_when_already_aligned() {
    let mut s = SuroiBitStream::new(2);
    s.write_align_to_next_byte().unwrap();
    assert_eq!(s.get_index(), 0);
    s.read_align_to_next_byte().unwrap();
    assert_eq!(s.get_index(), 0);
    s.write_variation(1).unwrap();
    s.read_align_to_next_byte().unwrap();
    assert_eq!(s.get_index(), 8);
}

#[test]
fn player_name_must_be_ascii() {
    let mut s = SuroiBitStream::new(32);
    assert_eq!(s.write_player_name("Plàyer"), Err(StreamError::NotAscii));
    assert_eq!(s.get_index(), 0);
}

#[test]
fn arrays_of_elements() {
    let mut w = BitStream::new(4);
    w.write_bits_us(3u32, 5).unwrap();
    let mut r = SuroiBitStream::from_stream(BitStream::from_bytes(&w.to_bytes()));
    let items = r.read_and_create_array(5, || 7u8).unwrap();
    assert_eq!(items, vec![7u8, 7, 7]);
    assert_eq!(r.get_index(), 5);
    let mut r2 = SuroiBitStream::from_stream(BitStream::from_bytes(&w.to_bytes()));
    let mut target = vec![1u8];
    r2.read_array(&mut target, 5, || 9u8).unwrap();
    assert_eq!(target, vec![1u8, 9, 9, 9]);
}

#[test]
fn write_array_writes_the_length() {
    let mut s = SuroiBitStream::new(2);
    let seen = std::cell::Cell::new(0u32);
    s.write_array(&vec![10u8, 20, 30], 4, |x| seen.set(seen.get() + *x as u32)).unwrap();
    assert_eq!(seen.get(), 60);
    assert_eq!(s.get_index(), 4);
    assert_eq!(s.stream().to_bytes(), vec![3, 0]);
    let mut full = SuroiBitStream::new(0);
    assert_eq!(full.write_array(&vec![1u8], 4, |_| {}), Err(StreamError::OutOfBounds));
}

#[test]
fn orientation_sums() {
    assert_eq!(Orientation::Right.add(Orientation::Down), Orientation::Left);
    assert_eq!(Orientation::Up.add(Orientation::Up), Orientation::Up);
    assert_eq!(Orientation::Down.add(Orientation::Left), Orientation::Up);
}
