use mini_sgbd::col_info::{ColInfo, Record};
use mini_sgbd::condition::{all_conditions_hold, Chars, Condition, ConditionPattern, Operand, Operande, Operateur};

fn personne_columns() -> Vec<ColInfo> {
    vec![
        ColInfo::new("NOM", "VARCHAR(20)"),
        ColInfo::new("PRENOM", "VARCHAR(20)"),
        ColInfo::new("AGE", "INT"),
    ]
}

fn personne_record() -> Record {
    Record::new(vec!["GNAHO".to_string(), "CHRISTOPHE".to_string(), "50".to_string()])
}

/// Numbers compare as floating-point values, as the command line does it.
fn number_order(a: &str, b: &str) -> i8 {
    let x = a.parse::<f64>().unwrap_or(0.0);
    let y = b.parse::<f64>().unwrap_or(0.0);
    if x < y {
        -1
    } else if x > y {
        1
    } else {
        0
    }
}

fn evaluate_full(c: &Condition) -> bool {
    match c.evaluate() {
        Some(b) => b,
        None => match (&c.oper_gauche, &c.oper_droite) {
            (Operand::Number(a), Operand::Number(b)) => c.evaluate_with(number_order(a, b)),
            _ => unreachable!(),
        },
    }
}

#[test]
fn test_split_condition_aucun_const() {
    let condition = "table1.col1 = table2.col2";
    let result = ConditionPattern::AucunConst.captures(condition);
    assert!(result.is_some());
    let (left, op, right) = result.unwrap();
    assert_eq!(left, "table1.col1");
    assert_eq!(op, "=");
    assert_eq!(right, "table2.col2");
}

#[test]
fn test_split_condition_char_const_gauche() {
    let condition = "'value' = table.col";
    let result = ConditionPattern::CharConstGauche.captures(condition);
    assert!(result.is_some());
    let (left, op, right) = result.unwrap();
    assert_eq!(left, "value");
    assert_eq!(op, "=");
    assert_eq!(right, "table.col");
}

#[test]
fn test_split_condition_deux_char_const() {
    let condition = "'value1' = 'value2'";
    let result = ConditionPattern::DeuxCharConst.captures(condition);
    assert!(result.is_some());
    let (left, op, right) = result.unwrap();
    assert_eq!(left, "value1");
    assert_eq!(op, "=");
    assert_eq!(right, "value2");
}

#[test]
fn test_split_colonne() {
    let col = "table.col";
    let result = Condition::split_colonne(col);
    assert!(result.is_ok());
    let (table, col) = result.unwrap();
    assert_eq!(table, "table");
    assert_eq!(col, "col");
}

#[test]
fn split_colonne_without_dot_fails() {
    let result = Condition::split_colonne("colonne");
    assert_eq!(result.unwrap_err().message, "Erreur split_condition()");
    let (a, b) = Condition::split_colonne("a.b.c").unwrap();
    assert_eq!(a, "a");
    assert_eq!(b, "b.c");
}

#[test]
fn test_suppr_guillemets() {
    let with_quotes = "'value'";
    let result = Condition::suppr_guillemets(with_quotes);
    assert_eq!(result, "value");
}

#[test]
fn suppr_guillemets_other_quotes() {
    assert_eq!(Condition::suppr_guillemets("\"abc\""), "abc");
    assert_eq!(Condition::suppr_guillemets("ʺabcʺ"), "abc");
    assert_eq!(Condition::suppr_guillemets("'abc"), "'abc");
    assert_eq!(Condition::suppr_guillemets("'"), "'");
}

#[test]
fn test_to_operateur() {
    let op_str = "=";
    let result = Condition::to_operateur(op_str);
    assert!(result.is_ok());
    let op = result.unwrap();
    assert!(op == Operateur::EQUAL);
}

#[test]
fn to_operateur_all_and_invalid() {
    assert_eq!(Condition::to_operateur("<>").unwrap(), Operateur::NOTEQUAL);
    assert_eq!(Condition::to_operateur("<=").unwrap(), Operateur::LESSEQUAL);
    assert_eq!(Condition::to_operateur(">=").unwrap(), Operateur::GREATEREQUAL);
    assert_eq!(Condition::to_operateur("<").unwrap(), Operateur::LESSTHAN);
    assert_eq!(Condition::to_operateur(">").unwrap(), Operateur::GREATERTHAN);
    assert_eq!(Condition::to_operateur("==").unwrap_err().message, "Opérateur invalide");
}

#[test]
fn test_evaluate() {
    let condition = Condition::new(Operand::Number("10".to_string()), Operateur::LESSTHAN, Operand::Number("20".to_string()));
    assert_eq!(condition.evaluate(), None);
    assert!(evaluate_full(&condition));
}

#[test]
fn test_check_syntaxe_valid_conditions() {
    let colinfo = personne_columns();
    let record = personne_record();
    let conditions = vec![
        ("'Chris'=table.NOM", true),
        ("table.AGE>30", true),
        ("26<=table.AGE", true),
        ("-12.3<=table.AGE", true),
        ("'inconnu'<>'connu'", true),
    ];
    for (cond_str, should_succeed) in conditions {
        let condition_result = Condition::check_syntaxe(cond_str.to_string(), &colinfo, &record);
        if should_succeed {
            assert!(condition_result.is_ok(), "Condition `{}` should succeed.", cond_str);
        } else {
            assert!(condition_result.is_err(), "Condition `{}` should fail.", cond_str);
        }
    }
}

#[test]
fn check_syntaxe_operands() {
    let colinfo = personne_columns();
    let record = personne_record();
    let c = Condition::check_syntaxe("table.AGE>30".to_string(), &colinfo, &record).unwrap();
    assert_eq!(c.to_string(), "Condition { oper_gauche=50, operateur=>, oper_droite=30 }");
    assert!(evaluate_full(&c));
    let c = Condition::check_syntaxe("'GNAHO'=table.NOM".to_string(), &colinfo, &record).unwrap();
    assert_eq!(c.evaluate(), Some(true));
    let c = Condition::check_syntaxe("table.PRENOM<'A'".to_string(), &colinfo, &record).unwrap();
    assert_eq!(c.evaluate(), Some(false));
    let e = Condition::check_syntaxe("26=".to_string(), &colinfo, &record);
    assert_eq!(e.err().unwrap().message, "Syntaxe invalide");
    assert!(Condition::try_check_syntaxe("table.TAILLE>3", &colinfo, &record).is_none());
}

#[test]
fn test_evaluate_various_conditions() {
    let condition1 = Condition::new(Operand::Number("10".to_string()), Operateur::LESSTHAN, Operand::Number("20".to_string()));
    assert!(evaluate_full(&condition1), "Attendu : 10 < 20 doit être true.");

    let condition2 = Condition::new(Operand::Chars(Chars::new("hello")), Operateur::NOTEQUAL, Operand::Chars(Chars::new("world")));
    assert!(evaluate_full(&condition2), "Attendu : 'hello' <> 'world' doit être true.");
    assert_eq!(condition2.evaluate(), Some(true));

    let condition3 = Condition::new(Operand::Number("100".to_string()), Operateur::EQUAL, Operand::Number("100".to_string()));
    assert!(evaluate_full(&condition3), "Attendu : 100 = 100 doit être true.");
}

#[test]
fn evaluate_mixed_operands_compare_as_smaller() {
    let c = Condition::new(Operand::Chars(Chars::new("a")), Operateur::LESSTHAN, Operand::Number("1".to_string()));
    assert_eq!(c.evaluate(), Some(true));
    let c = Condition::new(Operand::Number("1".to_string()), Operateur::GREATEREQUAL, Operand::Chars(Chars::new("a")));
    assert_eq!(c.evaluate(), Some(false));
    assert!(c.evaluate_with(0));
    assert!(!c.evaluate_with(-1));
}

#[test]
fn test_regex_patterns() {
    let regexs = vec![
        (ConditionPattern::AucunConst, "table1.col1 = table2.col2", true),
        (ConditionPattern::CharConstGauche, "'value' = table.col", true),
        (ConditionPattern::CharConstDroite, "table.col = 'value'", true),
        (ConditionPattern::NumberConstGauche, "-12.3 <= table.col", true),
        (ConditionPattern::NumberConstDroite, "table.col >= -99.99", true),
        (ConditionPattern::DeuxCharConst, "'hello' <> 'world'", true),
        (ConditionPattern::DeuxNumberConst, "-50 < -10", true),
    ];
    for (regex, input, attente) in regexs {
        assert_eq!(regex.is_match(input), attente, "Regex '{:?}' echec pour '{}'", regex, input);
    }
}

#[test]
fn patterns_reject_other_shapes() {
    assert!(!ConditionPattern::AucunConst.is_match("'value' = table.col"));
    assert!(!ConditionPattern::DeuxNumberConst.is_match("-50 < x"));
    assert!(!ConditionPattern::CharConstDroite.is_match("table.col = 'value"));
    assert!(!ConditionPattern::NumberConstGauche.is_match("12. <= table.col"));
    assert!(ConditionPattern::DeuxNumberConst.is_match("-50<-10"));
}

#[test]
fn test_to_string_condition() {
    let condition = Condition::new(Operand::Number("25".to_string()), Operateur::LESSTHAN, Operand::Number("50".to_string()));
    let string_repr = condition.to_string();
    assert_eq!(string_repr, "Condition { oper_gauche=25, operateur=<, oper_droite=50 }");
    assert_eq!(condition.get_operateur(), "<");
}

#[test]
fn chars_operand() {
    let c = Chars::new("abc");
    assert_eq!(c.get_type(), "CHARS");
    assert_eq!(c.get_valeur(), "abc");
}

#[test]
fn operator_text_reads_back() {
    for op in [
        Operateur::EQUAL,
        Operateur::LESSTHAN,
        Operateur::GREATERTHAN,
        Operateur::LESSEQUAL,
        Operateur::GREATEREQUAL,
        Operateur::NOTEQUAL,
    ] {
        let c = Condition::new(Operand::Number("1".to_string()), op, Operand::Number("2".to_string()));
        assert_eq!(Condition::to_operateur(&c.get_operateur()).unwrap(), op);
    }
}

#[test]
fn split_colonne_parts_join_back() {
    for s in ["t.c", "alias.colonne", ".x", "a.", "a.b.c"] {
        let (a, b) = Condition::split_colonne(s).unwrap();
        assert_eq!(format!("{}.{}", a, b), s);
        assert!(!a.contains('.'));
    }
}

#[test]
fn chars_compare_orders_texts() {
    let a = Chars::new("apple");
    assert_eq!(a.compare(&Operand::Chars(Chars::new("banana"))), -1);
    assert_eq!(a.compare(&Operand::Chars(Chars::new("apple"))), 0);
    assert_eq!(a.compare(&Operand::Chars(Chars::new("app"))), 1);
    assert_eq!(a.compare(&Operand::Number("10.5".to_string())), -1);
}

#[test]
fn test1() {
    let colinfo = personne_columns();
    let record = personne_record();
    let condition = Condition::check_syntaxe("26=12".to_string(), &colinfo, &record).unwrap();
    assert_eq!(condition.to_string(), "Condition { oper_gauche=26, operateur==, oper_droite=12 }");
    assert!(!evaluate_full(&condition));
}

#[test]
fn all_conditions_hold_uses_the_number_orders() {
    let text = Condition::new(Operand::Chars(Chars::new("a")), Operateur::LESSTHAN, Operand::Chars(Chars::new("b")));
    let numbers = Condition::new(Operand::Number("2".to_string()), Operateur::GREATERTHAN, Operand::Number("1".to_string()));
    let conds = vec![text, numbers];
    assert!(all_conditions_hold(&conds, &vec![0, 1]));
    assert!(!all_conditions_hold(&conds, &vec![0, -1]));
    let mixed = Condition::new(Operand::Chars(Chars::new("a")), Operateur::EQUAL, Operand::Number("1".to_string()));
    assert!(!all_conditions_hold(&vec![mixed], &vec![0]));
    assert!(all_conditions_hold(&Vec::new(), &Vec::new()));
}
