use sequence_engine::evaluate::{Evaluate, Evaluation};

#[test]
fn merge_two_votes_ands_and_sums() {
    let mut a = Evaluation { result: Some(true), count: 1 };
    a.merge(Evaluation { result: Some(true), count: 2 });
    assert_eq!(a, Evaluation { result: Some(true), count: 3 });

    let mut b = Evaluation { result: Some(true), count: 1 };
    b.merge(Evaluation { result: Some(false), count: 1 });
    assert_eq!(b, Evaluation { result: Some(false), count: 2 });

    let mut c = Evaluation { result: Some(false), count: 2 };
    c.merge(Evaluation { result: Some(false), count: 5 });
    assert_eq!(c, Evaluation { result: Some(false), count: 7 });
}

#[test]
fn merge_abstain_leaves_vote_unchanged() {
    let mut a = Evaluation { result: Some(true), count: 4 };
    a.merge(Evaluation { result: None, count: 0 });
    assert_eq!(a, Evaluation { result: Some(true), count: 4 });

    let mut b = Evaluation { result: None, count: 0 };
    b.merge(Evaluation { result: Some(false), count: 2 });
    assert_eq!(b, Evaluation { result: Some(false), count: 2 });

    let mut c = Evaluation { result: None, count: 0 };
    c.merge(Evaluation { result: None, count: 0 });
    assert_eq!(c, Evaluation { result: None, count: 0 });
}

#[test]
fn merge_is_associative_on_samples() {
    let xs = [
        Evaluation { result: None, count: 0 },
        Evaluation { result: Some(true), count: 1 },
        Evaluation { result: Some(false), count: 1 },
        Evaluation { result: Some(true), count: 3 },
    ];
    for a in xs.iter() {
        for b in xs.iter() {
            for c in xs.iter() {
                let left = a.and(*b).and(*c);
                let right = a.and(b.and(*c));
                assert_eq!(left, right);
            }
        }
    }
}

#[test]
fn merge_is_commutative_on_votes() {
    let xs = [
        Evaluation { result: Some(true), count: 1 },
        Evaluation { result: Some(false), count: 2 },
        Evaluation { result: Some(true), count: 5 },
    ];
    for a in xs.iter() {
        for b in xs.iter() {
            assert_eq!(a.and(*b), b.and(*a));
        }
    }
}

#[test]
fn array_of_bools_evaluates() {
    let none: [bool; 0] = [];
    assert_eq!(none.evaluate(), Evaluation { result: None, count: 0 });
    assert_eq!([true, true].evaluate(), Evaluation { result: Some(true), count: 2 });
    assert_eq!([true, false].evaluate(), Evaluation { result: Some(false), count: 2 });
}

#[test]
fn bool_and_vec_evaluate() {
    assert_eq!(true.evaluate(), Evaluation { result: Some(true), count: 1 });
    assert_eq!(false.evaluate(), Evaluation { result: Some(false), count: 1 });

    let empty: Vec<bool> = Vec::new();
    assert_eq!(empty.evaluate(), Evaluation { result: None, count: 0 });

    let all = vec![true, true, true];
    assert_eq!(all.evaluate(), Evaluation { result: Some(true), count: 3 });

    let mixed = vec![true, false, true];
    assert_eq!(mixed.evaluate(), Evaluation { result: Some(false), count: 3 });
}
