//! Object paths and benchmark arguments.

use tdms_rs::bench::parse_index_arg;
use tdms_rs::path::{parse_path, PathTarget};

fn is_group(t: PathTarget, name: &str) -> bool {
    matches!(t, PathTarget::Group(g) if g == name)
}

#[test]
fn path_kinds() {
    assert!(matches!(parse_path("/"), PathTarget::Root));
    assert!(is_group(parse_path("/'Group'"), "Group"));
    assert!(is_group(parse_path("/'it''s'"), "it's"));
    match parse_path("/'G'/'C h'") {
        PathTarget::Channel(g, c) => {
            assert_eq!(g, "G");
            assert_eq!(c, "C h");
        }
        _ => panic!("channel path not recognised"),
    }
    assert!(matches!(parse_path("no slash"), PathTarget::Other));
    assert!(matches!(parse_path("/'a'/'b'/'c'"), PathTarget::Other));
    assert!(matches!(parse_path("/'open"), PathTarget::Other));
    assert!(matches!(parse_path(""), PathTarget::Other));
}

fn args(v: &[&str]) -> Vec<String> {
    v.iter().map(|s| s.to_string()).collect()
}

#[test]
fn index_arg_counts() {
    let a = args(&["prog", "--samples", "100", "--warmup", "+7", "--iterations", "-1", "x", "99999999999999999999999"]);
    assert_eq!(parse_index_arg(&a, 1), Some((2, Some(100))));
    assert_eq!(parse_index_arg(&a, 3), Some((4, Some(7))));
    assert_eq!(parse_index_arg(&a, 5), Some((6, None)));
    assert_eq!(parse_index_arg(&a, 6), Some((7, None)));
    assert_eq!(parse_index_arg(&a, 7), Some((8, None)));
    assert_eq!(parse_index_arg(&a, 8), None);
    assert_eq!(parse_index_arg(&args(&["prog", "--samples"]), 1), None);
    assert_eq!(parse_index_arg(&args(&["", "", "0"]), 1), Some((2, Some(0))));
    assert_eq!(parse_index_arg(&args(&["", "", ""]), 1), Some((2, None)));
    assert_eq!(parse_index_arg(&args(&["", "", "+"]), 1), Some((2, None)));
}

#[test]
fn index_arg_counts_agree_with_std_parse() {
    let max = usize::MAX.to_string();
    let over = format!("{}0", usize::MAX);
    let texts = ["007", "+0", "1_0", " 1", "1 ", "++1", "-0", "٣", max.as_str(), over.as_str(), "4294967296"];
    for t in texts {
        let a = args(&["prog", "--samples", t]);
        assert_eq!(parse_index_arg(&a, 1), Some((2, t.parse::<usize>().ok())), "text {:?}", t);
    }
}
