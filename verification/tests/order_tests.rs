use rchat::order::text_less;

#[test]
fn text_order_matches_string_order() {
    let words = ["", "a", "ab", "abc", "b", "B", "Z", "é", "e", "10", "9", "zz", "z", "ß", "日本"];
    for x in words {
        for y in words {
            assert_eq!(text_less(x, y), x < y, "{x:?} < {y:?}");
        }
    }
}
