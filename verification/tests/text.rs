use jjs_commons::text::{is_white, order, same, trim, Order};

#[test]
fn white_space_is_what_std_takes_for_it() {
    for code in 0..=0x10ffffu32 {
        if let Some(c) = char::from_u32(code) {
            assert_eq!(is_white(c), c.is_whitespace(), "{:?}", c);
        }
    }
}

#[test]
fn trim_removes_white_space_at_both_ends() {
    for text in [
        "",
        " ",
        "\n",
        "a",
        " a b \r\n",
        "\u{3000}x\u{a0}",
        "{\"Event\": 1}\n",
        "\t\té\u{2003}ü\u{85}",
    ] {
        assert_eq!(trim(text), text.trim());
    }
    assert_eq!(trim(" a b \r\n"), "a b");
}

#[test]
fn strings_are_ordered_by_their_bytes() {
    let texts = ["", "/", "/add", "/add2", "/b", "/pi", "a", "é", "\u{ffff}", "\u{10000}"];
    for a in texts {
        for b in texts {
            let expected = if a < b {
                Order::Less
            } else if a == b {
                Order::Equal
            } else {
                Order::Greater
            };
            assert_eq!(order(a, b), expected, "{:?} {:?}", a, b);
            assert_eq!(same(a, b), a == b);
        }
    }
}
