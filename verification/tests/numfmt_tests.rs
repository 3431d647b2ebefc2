use txtutil::numfmt::dec_string;
use txtutil::numfmt::format_numbered;
use txtutil::numfmt::number_field;

#[test]
fn decimal_rendering_is_exact() {
    assert_eq!(dec_string(0), "0");
    assert_eq!(dec_string(7), "7");
    assert_eq!(dec_string(1234567), "1234567");
}

#[test]
fn number_field_is_right_aligned_width_six() {
    assert_eq!(number_field(1), "     1");
    assert_eq!(number_field(123456), "123456");
    assert_eq!(number_field(1234567), "1234567");
    assert_eq!(format_numbered(42, "body"), "    42\tbody");
}
