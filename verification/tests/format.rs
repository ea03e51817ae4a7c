use arenas::monovec::MonoVec;
use arenas::zone::Zone;

#[test]
fn monovec_format() {
    let mut buffer: MonoVec<u8> = MonoVec::new();
    for i in 0..100 {
        let expected = format!("hello {}", i);
        assert_eq!(buffer.format(&format!("hello {}", i)), expected);
    }
}

#[test]
fn zone_format() {
    let mut buffer: Zone<u8> = Zone::new();
    for i in 0..100 {
        let expected = format!("hello {}", i);
        assert_eq!(buffer.format(&format!("hello {}", i)), expected);
    }
}
