use noisy_float::types::r64;
use tf_format::{
    split_angle, AngleFormat, AngleUnit, EulerAxis, EulerAxisOrder, FileFormat, KeepTranslation,
};

#[test]
fn axis_codes_round_trip() {
    for axis in [EulerAxis::Roll, EulerAxis::Pitch, EulerAxis::Yaw] {
        assert_eq!(EulerAxis::from_char(axis.to_char()), Ok(axis));
    }
    assert_eq!(EulerAxis::from_char('x').unwrap_err().code, 'x');
}

#[test]
fn axis_order_reads_and_writes_codes() {
    let order = EulerAxisOrder::from_str("rpy").unwrap();
    assert_eq!(order.0, vec![EulerAxis::Roll, EulerAxis::Pitch, EulerAxis::Yaw]);
    assert_eq!(order.to_string(), "rpy");
    assert_eq!(EulerAxisOrder::from_str("").unwrap().0, vec![]);
    assert_eq!(EulerAxisOrder(vec![]).to_string(), "");
    assert_eq!(EulerAxisOrder::from_str("yyp").unwrap().to_string(), "yyp");
    assert_eq!(EulerAxisOrder::from_str("rxyz").unwrap_err().code, 'x');
}

#[test]
fn angle_text_is_parted_into_unit_and_number() {
    assert_eq!(split_angle("74.3d"), Some((AngleUnit::Degree, "74.3")));
    assert_eq!(split_angle("-47.2deg"), Some((AngleUnit::Degree, "-47.2")));
    assert_eq!(split_angle("97.0r"), Some((AngleUnit::Radian, "97.0")));
    assert_eq!(split_angle("-61.4rad"), Some((AngleUnit::Radian, "-61.4")));
    assert_eq!(split_angle("10\u{b0}"), Some((AngleUnit::Degree, "10")));
    assert_eq!(split_angle("rad"), Some((AngleUnit::Radian, "")));
    assert_eq!(split_angle("ad"), Some((AngleUnit::Degree, "a")));
    assert_eq!(split_angle("d"), Some((AngleUnit::Degree, "")));
    assert_eq!(split_angle("12"), None);
    assert_eq!(split_angle(""), None);
    assert_eq!(AngleUnit::Degree.suffix(), 'd');
    assert_eq!(AngleUnit::Radian.suffix(), 'r');
}

#[test]
fn formats_and_policies() {
    assert_eq!(FileFormat::from_extension("json"), Some(FileFormat::Json));
    assert_eq!(FileFormat::from_extension("json5"), Some(FileFormat::Json5));
    assert_eq!(FileFormat::from_extension("yaml"), Some(FileFormat::Yaml));
    assert_eq!(FileFormat::from_extension("yml"), None);
    assert_eq!(FileFormat::from_extension("Yaml"), None);
    assert_eq!(FileFormat::from_name("json"), Some(FileFormat::Json));
    assert_eq!(FileFormat::from_name("json5"), Some(FileFormat::Json5));
    assert_eq!(FileFormat::from_name("Yaml"), Some(FileFormat::Yaml));
    assert_eq!(FileFormat::from_name("yaml"), None);
    assert_eq!(FileFormat::resolve(Some(FileFormat::Yaml), Some("json")), Some(FileFormat::Yaml));
    assert_eq!(FileFormat::resolve(None, Some("json")), Some(FileFormat::Json));
    assert_eq!(FileFormat::resolve(None, Some("txt")), None);
    assert_eq!(FileFormat::resolve(None, None), None);
    assert_eq!(AngleFormat::Deg.unit(), AngleUnit::Degree);
    assert_eq!(AngleFormat::Rad.unit(), AngleUnit::Radian);
    assert_eq!(KeepTranslation::Auto.apply(Some(3), 0), Some(3));
    assert_eq!(KeepTranslation::Auto.apply(None, 0), None);
    assert_eq!(KeepTranslation::Always.apply(Some(3), 0), Some(3));
    assert_eq!(KeepTranslation::Always.apply(None, 0), Some(0));
    assert_eq!(KeepTranslation::Discard.apply(Some(3), 0), None);
}

#[test]
fn parse_angle() {
    {
        let (unit, number) = split_angle("74.3d").unwrap();
        assert_eq!(
            (unit, r64(number.parse().unwrap())),
            (AngleUnit::Degree, r64(74.3))
        );
    }

    {
        let (unit, number) = split_angle("-47.2deg").unwrap();
        assert_eq!(
            (unit, r64(number.parse().unwrap())),
            (AngleUnit::Degree, r64(-47.2))
        );
    }

    {
        let (unit, number) = split_angle("97.0r").unwrap();
        assert_eq!(
            (unit, r64(number.parse().unwrap())),
            (AngleUnit::Radian, r64(97.0))
        );
    }

    {
        let (unit, number) = split_angle("-61.4rad").unwrap();
        assert_eq!(
            (unit, r64(number.parse().unwrap())),
            (AngleUnit::Radian, r64(-61.4))
        );
    }
}
