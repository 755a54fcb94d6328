//! The shapes of a condition, held against the regular expressions that
//! describe them.

use fancy_regex::Regex;
use mini_sgbd::condition::ConditionPattern;

const COL: &str = r"[a-zA-Z_][a-zA-Z0-9_.-]*\.[a-zA-Z0-9_.-]+";
const OP: &str = r"(=|<>|<=|>=|<|>)";
const NUM: &str = r"(-?[0-9]+(\.[0-9]+)?)";

/// Each shape, its expression, and the groups of its left operand, its
/// operator and its right operand.
fn shapes() -> Vec<(ConditionPattern, String, [usize; 3])> {
    let chr_l = r#"(['"ʺ])([a-zA-Z0-9_-]+)\1"#;
    vec![
        (ConditionPattern::AucunConst, format!(r"^({COL})\s*{OP}\s*({COL})$"), [1, 2, 3]),
        (ConditionPattern::CharConstGauche, format!(r"^{chr_l}\s*{OP}\s*({COL})$"), [2, 3, 4]),
        (
            ConditionPattern::CharConstDroite,
            format!(r#"^({COL})\s*{OP}\s*(['"ʺ])([a-zA-Z0-9_-]+)\3$"#),
            [1, 2, 4],
        ),
        (ConditionPattern::NumberConstGauche, format!(r"^{NUM}\s*{OP}\s*({COL})$"), [1, 3, 4]),
        (ConditionPattern::NumberConstDroite, format!(r"^({COL})\s*{OP}\s*{NUM}$"), [1, 2, 3]),
        (
            ConditionPattern::DeuxCharConst,
            format!(r#"^{chr_l}\s*{OP}\s*(['"ʺ])([a-zA-Z0-9_-]+)\4$"#),
            [2, 3, 5],
        ),
        (ConditionPattern::DeuxNumberConst, format!(r"^\s*{NUM}\s*{OP}\s*{NUM}\s*$"), [1, 3, 4]),
    ]
}

fn inputs() -> Vec<String> {
    let operands = [
        "t.c", "a.b.c", "_x.y", "T1.col-2", "t.", ".c", "x", "1a.b", "1.2", "-3", "-3.5", "3.", "-", "'v'",
        "\"v1\"", "ʺvʺ", "'v\"", "''", "'a b'", "t.c'",
    ];
    let ops = ["=", "<>", "<=", ">=", "<", ">", "=>", "<<", ""];
    let spaces = ["", " ", "\u{3000}"];
    let mut out = Vec::new();
    for l in operands.iter() {
        for o in ops.iter() {
            for r in operands.iter() {
                for s in spaces.iter() {
                    out.push(format!("{l}{s}{o}{s}{r}"));
                }
            }
        }
    }
    out.push(" -1 < 2 ".to_string());
    out.push(" t.c = 1".to_string());
    out.push("t.c = 1 ".to_string());
    out.push("t.c = 1\n".to_string());
    out
}

#[test]
fn shapes_agree_with_their_expressions() {
    let cases = inputs();
    for (pattern, expr, groups) in shapes() {
        let re = Regex::new(&expr).unwrap();
        for s in &cases {
            let expected = re.captures(s).unwrap();
            let got = pattern.captures(s);
            assert_eq!(pattern.is_match(s), expected.is_some(), "{:?} on {:?}", pattern, s);
            match (expected, got) {
                (None, None) => {}
                (Some(caps), Some((a, o, b))) => {
                    assert_eq!(a, caps.get(groups[0]).unwrap().as_str(), "{:?} on {:?}", pattern, s);
                    assert_eq!(o, caps.get(groups[1]).unwrap().as_str(), "{:?} on {:?}", pattern, s);
                    assert_eq!(b, caps.get(groups[2]).unwrap().as_str(), "{:?} on {:?}", pattern, s);
                }
                (e, g) => panic!("{:?} on {:?}: {:?} and {:?}", pattern, s, e.is_some(), g),
            }
        }
    }
}
