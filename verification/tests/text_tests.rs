use quackulator::model::feature_names;
use quackulator::text::{arg, chars_of, is_white, parse_u8, to_upper};

#[test]
fn white_space_matches_std() {
    for u in 0..0x11_0000u32 {
        if let Some(c) = char::from_u32(u) {
            assert_eq!(is_white(c), c.is_whitespace(), "{:x}", u);
        }
    }
}

#[test]
fn upper_case_matches_std() {
    for s in ["abc xyz", "W1x4", "straße", "émile", "ǆ", "ﬀ", "ı", "Σσς"] {
        let up: String = to_upper(&chars_of(s)).into_iter().collect();
        assert_eq!(up, s.to_uppercase());
    }
}

#[test]
fn byte_numbers() {
    let v = |s: &str| chars_of(s);
    assert_eq!(parse_u8(&v("x42"), 1), Some(42));
    assert_eq!(parse_u8(&v("x+7"), 1), Some(7));
    assert_eq!(parse_u8(&v("x255"), 1), Some(255));
    assert_eq!(parse_u8(&v("x256"), 1), None);
    assert_eq!(parse_u8(&v("x"), 1), None);
    assert_eq!(parse_u8(&v("x+"), 1), None);
    assert_eq!(parse_u8(&v("x-1"), 1), None);
    assert_eq!(parse_u8(&v("x0007"), 1), Some(7));
    for s in ["", "+", "-", "12a", "300", "+255", "00", "-0", " 1"] {
        assert_eq!(parse_u8(&v(s), 0), s.parse::<u8>().ok(), "{:?}", s);
    }
}

#[test]
fn model_feature_names() {
    let f = feature_names();
    assert_eq!(f.len(), 46);
    assert_eq!(f[0], "const");
    assert_eq!(f[1], "W1");
    assert_eq!(f[18], "K1");
    assert_eq!(f[19], "W1^2");
    assert_eq!(f[36], "K1^2");
    assert_eq!(f[37], "droplet");
    assert_eq!(f[45], "margin");
}

#[test]
fn option_value_follows_first_key() {
    let args: Vec<String> = ["sim", "--games", "50", "--depth", "2", "--games", "9", "--seed"].iter().map(|s| s.to_string()).collect();
    assert_eq!(arg(&args, "--games"), Some("50".to_string()));
    assert_eq!(arg(&args, "--depth"), Some("2".to_string()));
    assert_eq!(arg(&args, "--weights"), None);
    // a key with nothing after it has no value
    assert_eq!(arg(&args, "--seed"), None);
    assert_eq!(arg(&args, "sim"), Some("--games".to_string()));
    assert_eq!(arg(&[], "--games"), None);
}
