use rustdb::dtype::{deserialize_data_types, serialize_data_types, DataType};
use rustdb::errors::RelationErrors;
use rustdb::ieee::{fixed, less, nan, widen};
use rustdb::pretty::calculate_max_width;
use rustdb::text::{
    bytes_eq, i32_text, space, split_words, str_eq, str_rank, strip_trailing, Rank,
};

fn parse_float(s: &str) -> Option<u64> {
    s.parse::<f64>().ok().map(f64::to_bits)
}

fn float(x: f64) -> DataType {
    DataType::Float(x.to_bits())
}

fn text(s: &str) -> DataType {
    DataType::String(s.to_string())
}

struct Lcg(u64);

impl Lcg {
    fn next(&mut self) -> u64 {
        self.0 = self.0.wrapping_mul(6364136223846793005).wrapping_add(1442695040888963407);
        let mut x = self.0;
        x ^= x >> 33;
        x = x.wrapping_mul(0xff51afd7ed558ccd);
        x ^= x >> 33;
        x
    }
}

#[test]
fn wire_form_of_each_kind() {
    let values = vec![text("hé"), DataType::Int(-2), float(1.0)];
    let bytes = serialize_data_types(&values).unwrap();
    assert_eq!(
        bytes,
        vec![
            0, 0, 0, 0, 0, 0, 0, 0, 3, b'h', 0xc3, 0xa9, 1, 0xff, 0xff, 0xff, 0xfe, 2, 0x3f, 0xf0, 0, 0,
            0, 0, 0, 0
        ]
    );
    assert_eq!(deserialize_data_types(&bytes).unwrap(), values);
    assert_eq!(serialize_data_types(&[]).unwrap(), Vec::<u8>::new());
    assert_eq!(deserialize_data_types(&[]).unwrap(), Vec::<DataType>::new());
}

#[test]
fn decoding_gives_back_what_was_encoded() {
    let mut rng = Lcg(7);
    for round in 0..200 {
        let mut values = Vec::new();
        for _ in 0..(round % 9) {
            let pick = rng.next();
            values.push(match pick % 3 {
                0 => DataType::Int((rng.next() >> 32) as u32 as i32),
                1 => DataType::Float(rng.next()),
                _ => {
                    let len = (rng.next() % 12) as usize;
                    let s: String = (0..len)
                        .map(|_| char::from_u32((rng.next() % 0x3000) as u32).unwrap_or('x'))
                        .collect();
                    DataType::String(s)
                },
            });
        }
        let bytes = serialize_data_types(&values).unwrap();
        assert_eq!(deserialize_data_types(&bytes).unwrap(), values);
    }
    let nan_value = vec![float(f64::NAN), float(-0.0)];
    assert_eq!(deserialize_data_types(&serialize_data_types(&nan_value).unwrap()).unwrap(), nan_value);
}

#[test]
fn malformed_bytes_are_refused() {
    let bad: Vec<Vec<u8>> = vec![
        vec![3],
        vec![1, 0, 0, 0],
        vec![2, 0, 0, 0, 0, 0, 0, 0],
        vec![0, 0, 0, 0, 0, 0, 0, 0],
        vec![0, 0, 0, 0, 0, 0, 0, 0, 2, b'a'],
        vec![0, 0xff, 0xff, 0xff, 0xff, 0xff, 0xff, 0xff, 0xff, b'a'],
        vec![0, 0, 0, 0, 0, 0, 0, 0, 1, 0xff],
        vec![1, 0, 0, 0, 1, 9],
    ];
    for bytes in bad {
        assert!(matches!(deserialize_data_types(&bytes), Err(RelationErrors::DecodeError)));
    }
}

#[test]
fn canonical_text_of_each_kind() {
    assert_eq!(DataType::Int(0).to_str(), "0");
    assert_eq!(DataType::Int(-17).to_str(), "-17");
    assert_eq!(DataType::Int(i32::MIN).to_str(), "-2147483648");
    assert_eq!(DataType::Int(i32::MAX).to_str(), "2147483647");
    assert_eq!(float(3.14).to_str(), "3.140000");
    assert_eq!(float(1.0 / 3.0).to_str(), "0.333333");
    assert_eq!(float(-2.5).to_str(), "-2.500000");
    assert_eq!(text(" as it is ").to_str(), " as it is ");
    assert_eq!(float(2.675).shown(), "2.67");
    assert_eq!(float(0.125).shown(), "0.12");
    assert_eq!(float(0.375).shown(), "0.38");
    assert_eq!(DataType::Int(5).shown(), "5");
    assert_eq!(text("t").shown(), "t");
}

fn check_fixed(x: f64) {
    assert_eq!(fixed(x.to_bits(), 6), format!("{:.6}", x), "six digits of {:e}", x);
    assert_eq!(fixed(x.to_bits(), 2), format!("{:.2}", x), "two digits of {:e}", x);
    assert_eq!(fixed(x.to_bits(), 1), format!("{:.1}", x), "one digit of {:e}", x);
    assert_eq!(fixed(x.to_bits(), 18), format!("{:.18}", x), "eighteen digits of {:e}", x);
}

#[test]
fn text_of_doubles_is_what_formatting_gives() {
    let chosen = [
        0.0,
        -0.0,
        1.0,
        -1.0,
        0.5,
        1.5,
        2.5,
        0.25,
        0.35,
        0.45,
        0.0000005,
        0.0000015,
        0.0000025,
        0.00000049999,
        1e-7,
        -1e-7,
        9.9999995,
        9.9999994,
        0.9999995,
        999999.9999995,
        123456789.123456789,
        1e15,
        1e16,
        4503599627370496.0,
        4503599627370495.5,
        9007199254740992.0,
        1e21,
        1e22,
        1e100,
        1.7976931348623157e308,
        f64::MIN_POSITIVE,
        5e-324,
        2.2250738585072009e-308,
        f64::MAX,
        f64::MIN,
        f64::EPSILON,
        f64::INFINITY,
        f64::NEG_INFINITY,
        f64::NAN,
        -f64::NAN,
        3.33,
        32.5,
        130.0,
    ];
    for x in chosen {
        check_fixed(x);
    }
    let mut rng = Lcg(11);
    for _ in 0..3000 {
        check_fixed(f64::from_bits(rng.next()));
    }
    for _ in 0..3000 {
        let x = (rng.next() % 2_000_000_000) as f64 / 1_000_000.0 - 1000.0;
        check_fixed(x);
        check_fixed(((rng.next() % 2_000_001) as f64 - 1_000_000.0) / 2_000_000.0);
        check_fixed((rng.next() % 4096) as f64 / 4096.0);
        check_fixed((rng.next() % 1_000_000) as f64 + 0.5);
    }
}

#[test]
fn widening_gives_the_double_that_equals_the_integer() {
    let chosen = [0, 1, -1, 2, 3, -3, 7, 8, 1023, 1024, 65535, 65536, i32::MAX, i32::MIN, i32::MIN + 1];
    for i in chosen {
        assert_eq!(widen(i), (i as f64).to_bits(), "{}", i);
    }
    let mut rng = Lcg(3);
    for _ in 0..20000 {
        let i = (rng.next() >> 32) as u32 as i32;
        assert_eq!(widen(i), (i as f64).to_bits(), "{}", i);
        let small = i >> ((rng.next() % 31) as u32);
        assert_eq!(widen(small), (small as f64).to_bits(), "{}", small);
    }
}

#[test]
fn doubles_stand_in_one_order() {
    let chosen = [
        -f64::NAN,
        f64::NEG_INFINITY,
        f64::MIN,
        -1.5,
        -f64::MIN_POSITIVE,
        -5e-324,
        -0.0,
        0.0,
        5e-324,
        f64::MIN_POSITIVE,
        1.0,
        1.0000000000000002,
        f64::MAX,
        f64::INFINITY,
        f64::NAN,
    ];
    for (i, a) in chosen.iter().enumerate() {
        assert_eq!(nan(a.to_bits()), a.is_nan());
        for (j, b) in chosen.iter().enumerate() {
            assert_eq!(less(a.to_bits(), b.to_bits()), i < j, "{:e} before {:e}", a, b);
            assert_eq!(
                less(a.to_bits(), b.to_bits()),
                a.total_cmp(b) == std::cmp::Ordering::Less,
                "{:e} before {:e}",
                a,
                b
            );
            if !a.is_nan() && !b.is_nan() && a < b {
                assert!(less(a.to_bits(), b.to_bits()));
            }
        }
    }
    let mut rng = Lcg(5);
    for _ in 0..20000 {
        let a = f64::from_bits(rng.next());
        let b = f64::from_bits(rng.next());
        assert_eq!(
            less(a.to_bits(), b.to_bits()),
            a.total_cmp(&b) == std::cmp::Ordering::Less,
            "{:e} before {:e}",
            a,
            b
        );
        if !a.is_nan() && !b.is_nan() {
            assert_eq!(less(a.to_bits(), b.to_bits()), a < b, "{:e} < {:e}", a, b);
        }
        assert_eq!(less(a.to_bits(), a.to_bits()), false);
        assert_eq!(nan(a.to_bits()), a.is_nan());
    }
}

fn from_str_of_std(s: &str) -> DataType {
    let t = s.trim();
    if let Ok(i) = t.parse::<i32>() {
        DataType::Int(i)
    } else if let Ok(f) = t.parse::<f64>() {
        DataType::Float(f.to_bits())
    } else {
        DataType::String(t.to_string())
    }
}

#[test]
fn reading_a_text_tries_integer_then_double_then_text() {
    let chosen = [
        "42",
        " 42 ",
        "\t-7\n",
        "+7",
        "-0",
        "007",
        "2147483647",
        "2147483648",
        "-2147483648",
        "-2147483649",
        "99999999999999999999",
        "",
        "   ",
        "-",
        "+",
        "--1",
        "1 2",
        "1.5",
        " 3.33",
        "1e3",
        ".5",
        "5.",
        "inf",
        "-inf",
        "NaN",
        "nan",
        "infinity",
        "abc",
        " a b ",
        "１２",
        "12\u{a0}",
        "\u{2003}x\u{3000}",
        "1_000",
        "0x10",
        "٣",
    ];
    for s in chosen {
        assert_eq!(DataType::from_str(s, parse_float), from_str_of_std(s), "{:?}", s);
        assert_eq!(DataType::read(s, &parse_float), from_str_of_std(s), "{:?}", s);
    }
    assert_eq!(DataType::from_str("12", |_| Some(0)), DataType::Int(12));
    assert_eq!(DataType::from_str("x", |_| Some(9)), DataType::Float(9));
    assert_eq!(DataType::from_str(" x ", |_| None), text("x"));
    let mut rng = Lcg(13);
    for _ in 0..5000 {
        let i = (rng.next() >> 32) as u32 as i32;
        assert_eq!(i32_text(i), format!("{}", i));
        assert_eq!(DataType::from_str(&i32_text(i), parse_float), DataType::Int(i));
        let wide = (rng.next() >> 30) as i64 - (1i64 << 33);
        let s = format!("{}", wide);
        assert_eq!(DataType::from_str(&s, parse_float), from_str_of_std(&s));
    }
}

#[test]
fn white_space_is_what_the_standard_library_takes_for_it() {
    for u in 0..=0x10ffffu32 {
        if let Some(c) = char::from_u32(u) {
            assert_eq!(space(c), c.is_whitespace(), "U+{:04X}", u);
        }
    }
}

#[test]
fn words_and_commas() {
    let chosen = ["", " ", "a", " a", "a ", "  a\tb\n\nc  ", "one\u{2003}two", "x,y, z ,", "\u{a0}"];
    for s in chosen {
        let expected: Vec<String> = s.split_whitespace().map(|w| w.to_string()).collect();
        assert_eq!(split_words(s), expected, "{:?}", s);
    }
    for s in ["", ",", ",,,", "a,", "a,,", ",a", "a,b", "a,b,,", "é,"] {
        assert_eq!(strip_trailing(s, ','), s.trim_end_matches(','), "{:?}", s);
    }
}

#[test]
fn texts_compare_as_strings_do() {
    let chosen = ["", "a", "A", "ab", "b", "aa", "é", "z", "ａ", "\u{10000}", "\u{ffff}", "10", "9"];
    for a in chosen {
        for b in chosen {
            let expected = a.cmp(b);
            let got = match str_rank(a, b) {
                Rank::Before => std::cmp::Ordering::Less,
                Rank::Same => std::cmp::Ordering::Equal,
                Rank::After => std::cmp::Ordering::Greater,
            };
            assert_eq!(got, expected, "{:?} {:?}", a, b);
            assert_eq!(str_eq(a, b), a == b);
            assert_eq!(bytes_eq(a.as_bytes(), b.as_bytes()), a == b);
        }
    }
}

#[test]
fn values_compare_and_hash_by_what_they_are() {
    let values = vec![
        text(""),
        text("a"),
        text("b"),
        DataType::Int(-1),
        DataType::Int(0),
        DataType::Int(5),
        float(-1.0),
        float(-0.0),
        float(0.0),
        float(2.0),
        float(f64::NAN),
    ];
    for (i, a) in values.iter().enumerate() {
        for (j, b) in values.iter().enumerate() {
            assert_eq!(a == b, i == j);
            if a == b {
                assert_eq!(a.hash_code(), b.hash_code());
            }
            let same_kind = std::mem::discriminant(a) == std::mem::discriminant(b);
            assert_eq!(a.less_than(b), i < j, "{:?} {:?}", a, b);
            assert_eq!(a.before(b), same_kind && i < j, "{:?} {:?}", a, b);
            assert_eq!(a.less_than(b) || b.less_than(a), a != b, "{:?} {:?}", a, b);
        }
    }
    assert_eq!(text("same").hash_code(), text("same").clone().hash_code());
    assert_eq!(float(-0.0) == float(0.0), false);
    assert!(float(-0.0).before(&float(0.0)));
    assert!(!float(0.0).before(&float(-0.0)));
}

#[test]
fn sizes_and_kinds() {
    assert_eq!(DataType::Int(1).dlen(), 4);
    assert_eq!(DataType::Int(1).slen(), 5);
    assert_eq!(float(1.0).dlen(), 8);
    assert_eq!(float(1.0).slen(), 9);
    assert_eq!(text("hé").dlen(), 3);
    assert_eq!(text("hé").slen(), 4);
    assert_eq!(text("").dlen(), 0);
    assert_eq!(DataType::Int(1).to_json(), "\"Integer\"");
    assert_eq!(float(1.0).to_json(), "\"Float\"");
    assert_eq!(text("x").to_json(), "\"String\"");
}

#[test]
fn errors_describe_themselves_as_debug_does() {
    let errors = vec![
        RelationErrors::RelationNotFound,
        RelationErrors::RelationAlreadyExists,
        RelationErrors::ColumnNotFound("a \"quoted\" name\n".to_string()),
        RelationErrors::WriteError("w".to_string()),
        RelationErrors::ReadError("r\\".to_string()),
        RelationErrors::Error("é\u{7f}".to_string()),
        RelationErrors::InvalidInput(String::new()),
        RelationErrors::UnsortedInputError,
        RelationErrors::AggregationError("tab\t".to_string()),
        RelationErrors::DecodeError,
    ];
    for e in errors {
        assert_eq!(e.describe(), format!("{:?}", e));
    }
}

#[test]
fn width_of_a_column_for_display() {
    let column = vec![DataType::Int(-12345), float(3.14159), text("hé"), float(1234.5)];
    assert_eq!(calculate_max_width(&column, "n"), Ok(7));
    assert_eq!(calculate_max_width(&column, "a long name"), Ok(11));
    assert_eq!(calculate_max_width(&Vec::new(), "é"), Ok(2));
}

#[test]
fn a_table_is_drawn_with_rules() {
    let mut relation = rustdb::interface::ColumnStoreRelation::new();
    relation.columns.insert("id".to_string(), vec![DataType::Int(1), DataType::Int(20)]);
    relation.columns.insert("price".to_string(), vec![float(2.5)]);
    relation.columns.insert("hidden".to_string(), vec![text("h"), text("h"), text("h")]);
    relation.select_columns = vec!["id".to_string(), "gone".to_string(), "price".to_string()];
    let expected = "\
┌────┬───────┐
│ id │ price │
├────┼───────┤
│ 1  │ 2.50  │
│ 20 │       │
│    │       │
└────┴───────┘
";
    assert_eq!(relation.render(), expected);
    let widths = relation.column_widths();
    assert_eq!(widths, vec![2, 0, 5]);
    assert_eq!(relation.render_row(0, &widths), "│ 1  │ 2.50  │\n");
    assert_eq!(relation.render_header(&vec![1]), "│ id │ price │\n");
    assert_eq!(relation.render_rule(&widths, "a", "b", "c"), "a────b───────c\n");
    let empty = rustdb::interface::ColumnStoreRelation::new();
    assert_eq!(empty.render(), "┌┐\n│\n├┤\n└┘\n");
}
