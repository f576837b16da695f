use moc_cli::text::{chars_of, is_white_space_char, pair_up, split_once, trim, trim_chars, vertex_tokens};

fn tokens(s: &str) -> Vec<String> {
    vertex_tokens(s).iter().map(|t| t.iter().collect::<String>()).collect()
}

const SAMPLES: [&str; 12] = [
    "",
    "   ",
    "abc",
    "  abc  ",
    "\t12 34\n",
    "\u{3000}x\u{a0}",
    "\u{2009} a b \u{2028}",
    "a,b,c",
    "a::b::c",
    "::",
    "é,ü",
    "\u{85}\u{1680}z\u{202f}\u{205f}",
];

#[test]
fn trim_removes_outer_whitespace() {
    assert_eq!(trim("  a b \t"), "a b");
    assert_eq!(trim("\u{3000}x\u{a0}"), "x");
    assert_eq!(trim("   "), "");
    assert_eq!(trim(""), "");
    assert_eq!(trim("x"), "x");
}

#[test]
fn trim_agrees_with_std() {
    for s in SAMPLES.iter() {
        assert_eq!(trim(s), s.trim(), "on {:?}", s);
        let v: Vec<char> = s.chars().collect();
        let t: String = trim_chars(&v).iter().collect();
        assert_eq!(t, s.trim());
    }
}

#[test]
fn trim_is_idempotent() {
    for s in SAMPLES.iter() {
        assert_eq!(trim(trim(s)), trim(s));
    }
}

#[test]
fn white_space_agrees_with_std() {
    for u in 0u32..0x3100 {
        if let Some(c) = char::from_u32(u) {
            assert_eq!(is_white_space_char(c), c.is_whitespace(), "on U+{:04X}", u);
        }
    }
}

#[test]
fn chars_of_copies_characters() {
    assert_eq!(chars_of("aé€"), vec!['a', 'é', '€']);
    assert_eq!(chars_of(""), Vec::<char>::new());
}

#[test]
fn split_once_first_occurrence() {
    assert_eq!(split_once("a,b,c", ","), Some(("a", "b,c")));
    assert_eq!(split_once("abc", ","), None);
    assert_eq!(split_once("abc", ""), Some(("", "abc")));
    assert_eq!(split_once("a::b::c", "::"), Some(("a", "b::c")));
    assert_eq!(split_once("::", "::"), Some(("", "")));
    assert_eq!(split_once("é,ü", ","), Some(("é", "ü")));
    assert_eq!(split_once("ab", "abc"), None);
}

#[test]
fn split_once_agrees_with_std() {
    for s in SAMPLES.iter() {
        for sep in [",", "::", " ", "", "b", "é", "\u{a0}"].iter() {
            assert_eq!(split_once(s, sep), s.split_once(sep), "on {:?} / {:?}", s, sep);
        }
    }
}

#[test]
fn split_once_rejoins() {
    for s in SAMPLES.iter() {
        for sep in [",", "::", " ", "b"].iter() {
            if let Some((a, b)) = split_once(s, sep) {
                assert_eq!(format!("{}{}{}", a, sep, b), *s);
                assert!(!a.contains(sep));
            } else {
                assert!(!s.contains(sep));
            }
        }
    }
}

#[test]
fn vertex_tokens_of_a_polygon() {
    assert_eq!(tokens("(10, 20),(30,40)"), vec!["10", "20", "30", "40"]);
    assert_eq!(tokens("( 1.5 ,-2 ) , (3,4)"), vec!["1.5", "-2", "3", "4"]);
    assert_eq!(tokens(""), vec![""]);
    assert_eq!(tokens("1(2"), vec!["12"]);
    assert_eq!(tokens("1,"), vec!["1", ""]);
}

#[test]
fn vertex_tokens_agree_with_std() {
    let inputs = ["(0,0),(10,0),(10,10)", " ( 1 , 2 ) ", "a,,b", "(,)", "x y,z"];
    for s in inputs.iter() {
        let expected: Vec<String> =
            s.replace("(", "").replace(")", "").split(',').map(|t| t.trim().to_string()).collect();
        assert_eq!(tokens(s), expected);
    }
}

#[test]
fn vertex_token_count_is_commas_plus_one() {
    let inputs = ["(0,0),(10,0),(10,10)", "", ",,,", "1"];
    for s in inputs.iter() {
        assert_eq!(tokens(s).len(), s.matches(',').count() + 1);
    }
}

#[test]
fn pair_up_groups_by_two() {
    assert_eq!(pair_up(&vec![1, 2, 3, 4, 5]), vec![(1, 2), (3, 4)]);
    assert_eq!(pair_up(&vec![1, 2, 3, 4]), vec![(1, 2), (3, 4)]);
    assert_eq!(pair_up(&Vec::<u8>::new()), Vec::<(u8, u8)>::new());
    assert_eq!(pair_up(&vec![7]), Vec::<(i32, i32)>::new());
    assert_eq!(pair_up(&vec![0.5f64, 1.5f64]), vec![(0.5, 1.5)]);
}

#[test]
fn vertex_tokens_ignore_parens_and_outer_space() {
    let base = tokens("10,20,30,40");
    for s in ["(10,20),(30,40)", "((10,20)),(30,(40))", "  10 ,\t20 , 30,40\n", "( 10 , 20 ) , ( 30 , 40 )"].iter() {
        assert_eq!(tokens(s), base, "on {:?}", s);
    }
    assert_eq!(tokens("1(2"), tokens("12"));
}
