use combat_log_analyzer::number_formatting::NumberFormatter;

/// Shows a floating point number through the library: the sign, the integer part and
/// the text of the fraction are taken from the number here.
trait FormatFloat {
    fn format(&mut self, number: f64, precision: usize) -> String;
}

impl FormatFloat for NumberFormatter {
    fn format(&mut self, number: f64, precision: usize) -> String {
        let is_negative = number.is_sign_negative();
        let mut number = number.abs();
        let fract = number.fract();
        if precision == 0 {
            number = number.round();
        }
        let integer = number as u64;
        if precision == 0 {
            return self.format_parts(is_negative, integer, None);
        }
        let fraction = format!("{:.*}", precision, fract);
        self.format_parts(is_negative, integer, Some(&fraction))
    }
}

#[test]
fn format_numbers() {
    let mut formatter = NumberFormatter::new();

    assert_eq!(formatter.format(123.1, 2), "123.10");
    assert_eq!(formatter.format(12345.1, 2), "12'345.10");
    assert_eq!(formatter.format(12345.123, 2), "12'345.12");
    assert_eq!(formatter.format(123456789.0, 2), "123'456'789.00");

    assert_eq!(formatter.format(12012.0, 2), "12'012.00");
    assert_eq!(formatter.format(12012012.0, 2), "12'012'012.00");

    assert_eq!(formatter.format(12012012.0, 0), "12'012'012");

    assert_eq!(formatter.format(1.567, 2), "1.57");
    assert_eq!(formatter.format(-1.567, 2), "-1.57");

    assert_eq!(formatter.format(-100.0, 0), "-100");
}

#[test]
fn format_parts_groups_thousands() {
    let mut formatter = NumberFormatter::new();
    assert_eq!(formatter.format_parts(false, 0, None), "0");
    assert_eq!(formatter.format_parts(false, 999, None), "999");
    assert_eq!(formatter.format_parts(false, 1000, None), "1'000");
    assert_eq!(formatter.format_parts(false, 1001001, None), "1'001'001");
    assert_eq!(formatter.format_parts(true, 7, None), "-7");
    assert_eq!(
        formatter.format_parts(false, u64::MAX, None),
        "18'446'744'073'709'551'615"
    );
}

#[test]
fn format_parts_drops_first_fraction_character() {
    let mut formatter = NumberFormatter::new();
    assert_eq!(formatter.format_parts(false, 12, Some("0.50")), "12.50");
    assert_eq!(formatter.format_parts(true, 1234, Some("0.05")), "-1'234.05");
    // a fraction that rounds up keeps its rounded digits only
    assert_eq!(formatter.format_parts(false, 1, Some("1.00")), "1.00");
    assert_eq!(formatter.format_parts(false, 5, Some("x")), "5");
}

#[test]
fn format_negative_zero_keeps_sign() {
    let mut formatter = NumberFormatter::new();
    assert_eq!(formatter.format(-0.0, 0), "-0");
    assert_eq!(formatter.format(0.0, 1), "0.0");
}

#[test]
fn grouping_only_inserts_separators() {
    let mut formatter = NumberFormatter::new();
    for n in [0u64, 7, 999, 1000, 123456, 1000000, 98765432109] {
        let shown = formatter.format_parts(false, n, None);
        assert_eq!(shown.replace('\'', ""), n.to_string());
    }
}
