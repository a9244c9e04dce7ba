use polytype::{OwnedType, ParseError, Variable};

fn con(name: &str, args: Vec<OwnedType>) -> OwnedType {
    OwnedType::Constructed(name.to_string(), args)
}

fn var(n: usize) -> OwnedType {
    OwnedType::Variable(Variable(n))
}

#[test]
fn test_parse() {
    let t = con("int", vec![]);
    assert_eq!(&t, &OwnedType::parse("int").expect("parse 1"));
    assert_eq!(t, OwnedType::parse(&t.show()).expect("parse 2"));

    let t = var(0);
    assert_eq!(&t, &OwnedType::parse("t0").expect("parse 3"));
    assert_eq!(t, OwnedType::parse(&t.show()).expect("parse 4"));

    let t = OwnedType::arrow_slice(vec![con("int", vec![]), con("int", vec![])]);
    assert_eq!(&t, &OwnedType::parse("int -> int").expect("parse 5"));
    assert_eq!(t, OwnedType::parse(&t.show()).expect("parse 6"));

    let t = con(
        "list",
        vec![OwnedType::arrow_slice(vec![con("int", vec![]), var(2)])],
    );
    assert_eq!(&t, &OwnedType::parse("list(int -> t2)").expect("parse 7"));
    assert_eq!(t, OwnedType::parse(&t.show()).expect("parse 8"));

    let t = con(
        "hashmap",
        vec![
            con("str", vec![]),
            OwnedType::arrow_slice(vec![con("int", vec![]), var(0), con("bool", vec![])]),
        ],
    );
    assert_eq!(
        &t,
        &OwnedType::parse("hashmap(str, int -> t0 -> bool)").expect("parse 9")
    );
    assert_eq!(t, OwnedType::parse(&t.show()).expect("parse 10"));

    let t = OwnedType::arrow_slice(vec![
        OwnedType::arrow_slice(vec![var(1), var(0), var(1)]),
        var(1),
        con("list", vec![var(0)]),
        var(1),
    ]);
    assert_eq!(
        &t,
        &OwnedType::parse("(t1 \u{2192} t0 \u{2192} t1) \u{2192} t1 \u{2192} list(t0) \u{2192} t1")
            .expect("parse 11")
    );
    assert_eq!(t, OwnedType::parse(&t.show()).expect("parse 12"));
}

#[test]
fn test_arrow_macro() {
    assert_eq!(OwnedType::arrow_slice(vec![var(0)]), var(0));
    let arg = var(0);
    let ret = var(1);
    let t = OwnedType::arrow_slice(vec![arg, ret]);
    assert_eq!(t, OwnedType::arrow_slice(vec![var(0), var(1)]));
    assert_eq!(
        OwnedType::arrow_slice(vec![var(0), var(1), var(2)]),
        OwnedType::arrow(var(0), OwnedType::arrow(var(1), var(2)))
    );
    assert_eq!(
        OwnedType::arrow_slice(vec![var(0), var(1), var(2), var(3)]),
        OwnedType::arrow(
            var(0),
            OwnedType::arrow(var(1), OwnedType::arrow(var(2), var(3)))
        )
    );
}

#[test]
fn test_arrow_methods() {
    let t0 = var(0);
    let t1 = con("int", vec![]);
    let t2 = OwnedType::arrow(t0.clone(), t1.clone());
    let ta1 = OwnedType::arrow(t2.clone(), OwnedType::arrow(t1.clone(), t0.clone()));
    let ta2 = OwnedType::arrow(t2.clone(), OwnedType::arrow(t1.clone(), t0.clone()));
    let ta3 = OwnedType::arrow_slice(vec![t2.clone(), t1.clone(), t0.clone()]);
    let ta4 = OwnedType::arrow_slice(vec![
        OwnedType::arrow_slice(vec![var(0), con("int", vec![])]),
        con("int", vec![]),
        var(0),
    ]);
    assert_eq!(ta4, ta1);
    assert_eq!(ta4, ta2);
    assert_eq!(ta4, ta3);
}

#[test]
fn test_tp_from_vec() {
    let mut tps = Vec::new();
    tps.push(var(0));
    let tp = OwnedType::arrow_slice(tps.clone());
    assert_eq!(tp, var(0));

    tps.push(var(1));
    let tp = OwnedType::arrow_slice(tps.clone());
    assert_eq!(tp, OwnedType::arrow(var(0), var(1)));

    tps.push(var(2));
    let tp = OwnedType::arrow_slice(tps.clone());
    assert_eq!(
        tp,
        OwnedType::arrow(var(0), OwnedType::arrow(var(1), var(2)))
    );
    tps.push(var(3));
    let tp = OwnedType::arrow_slice(tps.clone());
    assert_eq!(
        tp,
        OwnedType::arrow(
            var(0),
            OwnedType::arrow(var(1), OwnedType::arrow(var(2), var(3)))
        )
    );
}

#[test]
fn arrow_is_written_with_the_arrow_sign() {
    let t = OwnedType::arrow(var(0), var(1));
    assert_eq!(t, con("\u{2192}", vec![var(0), var(1)]));
    assert_eq!(t.show(), "t0 \u{2192} t1");
}

#[test]
fn show_groups_arrows_to_the_right() {
    let left = OwnedType::arrow(var(1), var(2));
    let t = OwnedType::arrow(left.clone(), var(3));
    assert_eq!(t.show(), "(t1 \u{2192} t2) \u{2192} t3");
    let t = OwnedType::arrow(var(3), left);
    assert_eq!(t.show(), "t3 \u{2192} t1 \u{2192} t2");
}

#[test]
fn show_writes_arguments_with_commas() {
    let t = con("pair", vec![con("int", vec![]), var(12)]);
    assert_eq!(t.show(), "pair(int,t12)");
    assert_eq!(var(1234567890).show(), "t1234567890");
    assert_eq!(var(10).show(), "t10");
}

#[test]
fn parse_reports_the_place_of_the_fault() {
    assert_eq!(OwnedType::parse(""), Err(ParseError { position: 0 }));
    assert_eq!(OwnedType::parse("int ->"), Err(ParseError { position: 6 }));
    assert_eq!(OwnedType::parse("list(int"), Err(ParseError { position: 8 }));
    assert_eq!(OwnedType::parse("int bool"), Err(ParseError { position: 4 }));
    assert_eq!(OwnedType::parse("(int"), Err(ParseError { position: 4 }));
    assert_eq!(OwnedType::parse("a,b"), Err(ParseError { position: 1 }));
}

#[test]
fn parse_refuses_a_variable_number_that_is_too_large() {
    assert_eq!(
        OwnedType::parse("t99999999999999999999999999"),
        Err(ParseError { position: 0 })
    );
    assert_eq!(
        OwnedType::parse("t18446744073709551615"),
        Ok(var(18446744073709551615))
    );
    assert_eq!(
        OwnedType::parse("list(t18446744073709551616)"),
        Err(ParseError { position: 5 })
    );
}

#[test]
fn parse_takes_spaces_and_both_arrows() {
    let t = OwnedType::arrow(con("a", vec![]), con("b", vec![]));
    assert_eq!(OwnedType::parse("a->b"), Ok(t.clone()));
    assert_eq!(OwnedType::parse("  a  ->  b  "), Ok(t.clone()));
    assert_eq!(OwnedType::parse("a\u{2192}b"), Ok(t.clone()));
    assert_eq!(OwnedType::parse("( a -> b )"), Ok(t));
    assert_eq!(OwnedType::parse("f( )"), Ok(con("f", vec![])));
    assert_eq!(
        OwnedType::parse("f( a , t1 )"),
        Ok(con("f", vec![con("a", vec![]), var(1)]))
    );
    assert_eq!(OwnedType::parse("t"), Ok(con("t", vec![])));
    assert_eq!(OwnedType::parse("t1x"), Ok(con("t1x", vec![])));
    assert_eq!(
        OwnedType::parse("unusually_large_identifier_requiring_wrap"),
        Ok(con("unusually_large_identifier_requiring_wrap", vec![]))
    );
}

#[test]
fn test_tp_macro() {
    assert_eq!(
        OwnedType::parse("bool").expect("a type"),
        OwnedType::Constructed("bool".to_string(), vec![])
    );
    assert_eq!(
        OwnedType::parse("list(bool)").expect("a type"),
        OwnedType::Constructed(
            "list".to_string(),
            vec![OwnedType::Constructed("bool".to_string(), vec![])]
        ),
    );
    assert_eq!(
        OwnedType::parse("list(tuple(bool, int))").expect("a type"),
        OwnedType::Constructed(
            "list".to_string(),
            vec![OwnedType::Constructed(
                "tuple".to_string(),
                vec![
                    OwnedType::Constructed("bool".to_string(), vec![]),
                    OwnedType::Constructed("int".to_string(), vec![]),
                ],
            ),]
        ),
    );
    assert_eq!(
        OwnedType::parse(
            "list(unusually_large_identifier_requiring_wrap, unusually_large_identifier_requiring_wrap)"
        )
        .expect("a type"),
        OwnedType::Constructed(
            "list".to_string(),
            vec![
                OwnedType::Constructed(
                    "unusually_large_identifier_requiring_wrap".to_string(),
                    vec![]
                ),
                OwnedType::Constructed(
                    "unusually_large_identifier_requiring_wrap".to_string(),
                    vec![]
                ),
            ],
        ),
    );
    assert_eq!(
        OwnedType::parse("t0").expect("a type"),
        OwnedType::Variable(Variable(0))
    );
    assert_eq!(
        OwnedType::parse("hashmap(str, int -> t0 -> bool)").expect("a type"),
        OwnedType::Constructed(
            "hashmap".to_string(),
            vec![
                OwnedType::Constructed("str".to_string(), vec![]),
                OwnedType::arrow(
                    OwnedType::Constructed("int".to_string(), vec![]),
                    OwnedType::arrow(
                        OwnedType::Variable(Variable(0)),
                        OwnedType::Constructed("bool".to_string(), vec![])
                    ),
                ),
            ]
        )
    );
}

#[test]
fn test_tp_from_vecdeque() {
    let mut tps = std::collections::VecDeque::new();
    tps.push_back(var(0));
    let tp = OwnedType::arrow_slice(Vec::from(tps.clone()));
    assert_eq!(tp, var(0));

    tps.push_back(var(1));
    let tp = OwnedType::arrow_slice(Vec::from(tps.clone()));
    assert_eq!(tp, OwnedType::arrow(var(0), var(1)));

    tps.push_back(var(2));
    let tp = OwnedType::arrow_slice(Vec::from(tps.clone()));
    assert_eq!(
        tp,
        OwnedType::arrow(var(0), OwnedType::arrow(var(1), var(2)))
    );
    tps.push_back(var(3));
    let tp = OwnedType::arrow_slice(Vec::from(tps.clone()));
    assert_eq!(
        tp,
        OwnedType::arrow(
            var(0),
            OwnedType::arrow(var(1), OwnedType::arrow(var(2), var(3)))
        )
    );
}

#[test]
fn show_then_parse_gives_the_term_back() {
    let texts = [
        "int",
        "t0",
        "t18446744073709551615",
        "a -> b -> c",
        "(a -> b) -> c",
        "((a -> b) -> c) -> d",
        "f(a, g(b, h(c)), t7 -> t8)",
        "f((a -> b) -> c, d)",
        "x_1(Y2, _z)",
    ];
    for text in texts {
        let t = OwnedType::parse(text).expect("a type");
        let shown = t.show();
        assert_eq!(OwnedType::parse(&shown), Ok(t.clone()));
        assert_eq!(OwnedType::parse(&shown).expect("a type").show(), shown);
    }
}
