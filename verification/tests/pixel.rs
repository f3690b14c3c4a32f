use rp_display::pixel::{decode_color, encode_color, join_color, split_color, ByteOrder};

#[test]
fn split_color_gives_high_then_low() {
    assert_eq!(split_color(0x1234), (0x12, 0x34));
    assert_eq!(split_color(0x0000), (0x00, 0x00));
    assert_eq!(split_color(0xFFFF), (0xFF, 0xFF));
    assert_eq!(split_color(0x00FF), (0x00, 0xFF));
    assert_eq!(split_color(0xFF00), (0xFF, 0x00));
}

#[test]
fn join_color_undoes_split() {
    assert_eq!(join_color(0x12, 0x34), 0x1234);
    assert_eq!(join_color(0xFF, 0xFF), 0xFFFF);
    assert_eq!(join_color(0x00, 0x01), 0x0001);
}

#[test]
fn encode_color_follows_byte_order() {
    assert_eq!(encode_color(ByteOrder::BigEndian, 0xF81F), (0xF8, 0x1F));
    assert_eq!(encode_color(ByteOrder::LittleEndian, 0xF81F), (0x1F, 0xF8));
}

#[test]
fn decode_color_follows_byte_order() {
    assert_eq!(decode_color(ByteOrder::BigEndian, 0xF8, 0x1F), 0xF81F);
    assert_eq!(decode_color(ByteOrder::LittleEndian, 0xF8, 0x1F), 0x1FF8);
}

#[test]
fn encode_then_decode_is_identity_on_samples() {
    for color in [0u16, 1, 0x00FF, 0x0100, 0x7FFF, 0x8000, 0xABCD, 0xFFFF] {
        for order in [ByteOrder::BigEndian, ByteOrder::LittleEndian] {
            let (a, b) = encode_color(order, color);
            assert_eq!(decode_color(order, a, b), color);
        }
    }
}
