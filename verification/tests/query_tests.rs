use booru_index::bitset::Bitset;
use booru_index::index::Term;
use booru_index::parser::ParseError;
use booru_index::posting::Queryable;
use booru_index::query::{evaluate, Item, Query};
use booru_index::result::EvalResult;

fn bits(ids: &[u32]) -> Bitset {
    let mut b = Bitset::new();
    for id in ids {
        b.set(*id);
    }
    b
}

fn single<'a>(b: &'a Bitset) -> Query<Queryable<'a>> {
    Query::new(Item::Single(Queryable::Borrowed(b)), false)
}

fn eval(q: &Query<Queryable>, u: &Bitset) -> Vec<u32> {
    evaluate(q, u).bits().iter()
}

#[test]
fn evaluation_of_chains() {
    let u = bits(&[0, 1, 2, 3, 4, 5, 6, 7]);
    let a = bits(&[1, 2, 3, 4]);
    let b = bits(&[3, 4, 5]);
    let c = bits(&[4, 7]);
    assert_eq!(eval(&single(&a), &u), vec![1, 2, 3, 4]);
    assert_eq!(eval(&single(&a).not(), &u), vec![0, 5, 6, 7]);
    let and = Query::new(Item::AndChain(vec![single(&a), single(&b), single(&c)]), false);
    assert_eq!(eval(&and, &u), vec![4]);
    let or = Query::new(Item::OrChain(vec![single(&b), single(&c)]), false);
    assert_eq!(eval(&or, &u), vec![3, 4, 5, 7]);
    let mixed = Query::new(Item::AndChain(vec![single(&a), single(&c).not()]), false);
    assert_eq!(eval(&mixed, &u), vec![1, 2, 3]);
    let empty_and: Query<Queryable> = Query::new(Item::AndChain(vec![]), false);
    assert_eq!(eval(&empty_and, &u), vec![0, 1, 2, 3, 4, 5, 6, 7]);
    let empty_or: Query<Queryable> = Query::new(Item::OrChain(vec![]), false);
    assert_eq!(eval(&empty_or, &u), Vec::<u32>::new());
    let owned = Query::new(Item::Single(Queryable::from_ids(&vec![5, 1])), true);
    assert_eq!(eval(&owned, &u), vec![0, 2, 3, 4, 6, 7]);
}

#[test]
fn boolean_laws_on_a_universe() {
    let u = bits(&[0, 1, 2, 3, 4, 5, 6, 7, 64, 65]);
    let a = bits(&[1, 2, 3, 64]);
    let b = bits(&[3, 4, 65]);
    // double negation
    assert_eq!(eval(&single(&a).not().not(), &u), eval(&single(&a), &u));
    // q and everything, q or nothing
    let top: Query<Queryable> = Query::new(Item::AndChain(vec![]), false);
    let with_top = Query::new(Item::AndChain(vec![single(&a), top]), false);
    assert_eq!(eval(&with_top, &u), eval(&single(&a), &u));
    let bottom: Query<Queryable> = Query::new(Item::OrChain(vec![]), false);
    let with_bottom = Query::new(Item::OrChain(vec![single(&a), bottom]), false);
    assert_eq!(eval(&with_bottom, &u), eval(&single(&a), &u));
    // de Morgan, both ways
    let not_and = Query::new(Item::AndChain(vec![single(&a), single(&b)]), true);
    let or_nots = Query::new(Item::OrChain(vec![single(&a).not(), single(&b).not()]), false);
    assert_eq!(eval(&not_and, &u), eval(&or_nots, &u));
    assert_eq!(eval(&not_and, &u), vec![0, 1, 2, 4, 5, 6, 7, 64, 65]);
    let not_or = Query::new(Item::OrChain(vec![single(&a), single(&b)]), true);
    let and_nots = Query::new(Item::AndChain(vec![single(&a).not(), single(&b).not()]), false);
    assert_eq!(eval(&not_or, &u), eval(&and_nots, &u));
    assert_eq!(eval(&not_or, &u), vec![0, 5, 6, 7]);
}

fn term(q: &Query<Term>) -> (Option<&str>, &str, bool) {
    match &q.item {
        Item::Single(t) => (t.ident.as_deref(), t.text.as_str(), q.inverse),
        _ => panic!("not a single term"),
    }
}

fn children(q: &Query<Term>) -> &Vec<Query<Term>> {
    match &q.item {
        Item::AndChain(cs) => cs,
        Item::OrChain(cs) => cs,
        Item::Single(_) => panic!("not a chain"),
    }
}

#[test]
fn parse_terms_signs_and_groups() {
    let q = Query::parse("cat  -dog score:5..  ~bird ~fish (a ~b ~c) -(d e) cat_(animal)").unwrap();
    assert!(matches!(q.item, Item::AndChain(_)) && !q.inverse);
    let cs = children(&q);
    assert_eq!(cs.len(), 7);
    assert_eq!(term(&cs[0]), (None, "cat", false));
    assert_eq!(term(&cs[1]), (None, "dog", true));
    assert_eq!(term(&cs[2]), (Some("score"), "5..", false));
    let group = &cs[3];
    assert!(matches!(group.item, Item::AndChain(_)) && !group.inverse);
    assert_eq!(term(&children(group)[0]), (None, "a", false));
    let alt = &children(group)[1];
    assert!(matches!(alt.item, Item::OrChain(_)));
    assert_eq!(term(&children(alt)[0]), (None, "b", false));
    assert_eq!(term(&children(alt)[1]), (None, "c", false));
    let negated = &cs[4];
    assert!(matches!(negated.item, Item::AndChain(_)) && negated.inverse);
    assert_eq!(children(negated).len(), 2);
    assert_eq!(term(&cs[5]), (None, "cat_(animal)", false));
    let any = &cs[6];
    assert!(matches!(any.item, Item::OrChain(_)) && !any.inverse);
    assert_eq!(term(&children(any)[0]), (None, "bird", false));
    assert_eq!(term(&children(any)[1]), (None, "fish", false));
}

#[test]
fn parse_edge_cases() {
    let empty = Query::parse("   ").unwrap();
    assert_eq!(children(&empty).len(), 0);
    let lone = Query::parse("-").unwrap();
    assert_eq!(term(&children(&lone)[0]), (None, "-", false));
    let colon = Query::parse("a:b:c").unwrap();
    assert_eq!(term(&children(&colon)[0]), (Some("a"), "b:c", false));
    let nested = Query::parse("((x))").unwrap();
    let inner = &children(&children(&nested)[0])[0];
    assert_eq!(term(&children(inner)[0]), (None, "x", false));
    assert!(matches!(Query::parse("(cat"), Err(ParseError::UnbalancedParens)));
    assert!(matches!(Query::parse("cat)"), Err(ParseError::UnbalancedParens)));
    assert!(matches!(Query::parse("(a (b)"), Err(ParseError::UnbalancedParens)));
    assert!(matches!(Query::parse(":cat"), Err(ParseError::EmptyIdentifier)));
    assert!(matches!(Query::parse("x -:cat"), Err(ParseError::EmptyIdentifier)));
    assert!(matches!(Query::parse("(-)"), Err(ParseError::EmptyTerm)));
}

#[test]
fn simplification_merges_nested_chains() {
    let q = Query::parse("a (b (c d)) -(e f) (~g ~h)").unwrap().simplified();
    let cs = children(&q);
    // a, b, c, d, the negated group, and the alternatives
    assert_eq!(cs.len(), 6);
    assert_eq!(term(&cs[0]).1, "a");
    assert_eq!(term(&cs[1]).1, "b");
    assert_eq!(term(&cs[2]).1, "c");
    assert_eq!(term(&cs[3]).1, "d");
    assert!(matches!(cs[4].item, Item::AndChain(_)) && cs[4].inverse);
    assert!(matches!(cs[5].item, Item::OrChain(_)));
    assert_eq!(children(&cs[5]).len(), 2);
    let or: Query<Term> = Query::new(
        Item::OrChain(vec![
            Query::new(Item::OrChain(vec![Query::parse("x").unwrap()]), false),
            Query::new(Item::OrChain(vec![]), true),
        ]),
        true,
    )
    .simplified();
    assert!(or.inverse);
    assert_eq!(children(&or).len(), 2);
    assert!(matches!(children(&or)[0].item, Item::AndChain(_)));
    assert!(children(&or)[1].inverse);
}

#[test]
fn simplification_drops_chains_that_change_nothing() {
    let q = Query::parse("cat () (()) dog").unwrap().simplified();
    let cs = children(&q);
    assert_eq!(cs.len(), 2);
    assert_eq!(term(&cs[0]).1, "cat");
    assert_eq!(term(&cs[1]).1, "dog");
    // the negation of nothing-at-all is everything: it changes no conjunction
    let everything: Query<Term> = Query::new(Item::OrChain(vec![]), true);
    let and = Query::new(Item::AndChain(vec![Query::parse("x").unwrap(), everything]), false);
    assert_eq!(children(&and.simplified()).len(), 1);
    // the negation of everything is nothing: it changes no disjunction
    let nothing: Query<Term> = Query::new(Item::AndChain(vec![]), true);
    let or = Query::new(Item::OrChain(vec![nothing, Query::parse("x y").unwrap()]), false);
    let or = or.simplified();
    assert_eq!(children(&or).len(), 1);
    assert!(matches!(children(&or)[0].item, Item::AndChain(_)));
    // but it empties a conjunction, and stays in it
    let nothing: Query<Term> = Query::new(Item::AndChain(vec![]), true);
    let and = Query::new(Item::AndChain(vec![nothing, Query::parse("x").unwrap()]), false);
    assert_eq!(children(&and.simplified()).len(), 2);
}

#[test]
fn constant_postings_are_folded() {
    let u = bits(&[0, 1, 2, 3]);
    let all = bits(&[0, 1, 2, 3]);
    let none = Bitset::new();
    let some = bits(&[1, 2]);
    let q = Query::new(
        Item::AndChain(vec![
            single(&all),
            single(&some),
            single(&none).not(),
            Query::new(Item::OrChain(vec![single(&none), single(&some).not()]), false),
        ]),
        true,
    );
    let want = eval(&q, &u);
    assert_eq!(want, vec![0, 1, 2, 3]);
    let folded = q.fold_constants(&u);
    assert_eq!(eval(&folded, &u), want);
    assert!(folded.inverse);
    match &folded.item {
        Item::AndChain(cs) => {
            assert!(matches!(&cs[0].item, Item::AndChain(v) if v.is_empty()) && !cs[0].inverse);
            assert!(matches!(cs[1].item, Item::Single(_)));
            assert!(matches!(&cs[2].item, Item::OrChain(v) if v.is_empty()) && cs[2].inverse);
            match &cs[3].item {
                Item::OrChain(inner) => {
                    assert!(matches!(&inner[0].item, Item::OrChain(v) if v.is_empty()));
                    assert!(matches!(inner[1].item, Item::Single(_)) && inner[1].inverse);
                }
                _ => panic!("the disjunction stays"),
            }
        }
        _ => panic!("the conjunction stays"),
    }
    let small = folded.simplified();
    assert_eq!(eval(&small, &u), want);
    match &small.item {
        Item::AndChain(cs) => assert_eq!(cs.len(), 2),
        _ => panic!("the conjunction stays"),
    }
    let lone = single(&none).fold_constants(&u);
    assert!(matches!(&lone.item, Item::OrChain(v) if v.is_empty()));
    assert_eq!(eval(&lone, &u), Vec::<u32>::new());
}

#[test]
fn conjunctions_take_any_order_of_children() {
    let u = bits(&(0..200).collect::<Vec<u32>>());
    let big = bits(&(0..150).collect::<Vec<u32>>());
    let mid = bits(&(50..120).collect::<Vec<u32>>());
    let small = bits(&[60, 61, 130]);
    let out = bits(&[61]);
    let orders: Vec<Vec<Query<Queryable>>> = vec![
        vec![single(&big), single(&mid), single(&small), single(&out).not()],
        vec![single(&out).not(), single(&small), single(&mid), single(&big)],
        vec![single(&mid), single(&out).not(), single(&big), single(&small)],
    ];
    for cs in orders {
        let q = Query::new(Item::AndChain(cs), false);
        assert_eq!(eval(&q, &u), vec![60]);
    }
    let only_not = Query::new(Item::AndChain(vec![single(&big).not()]), false);
    assert_eq!(eval(&only_not, &u), (150..200).collect::<Vec<u32>>());
    let twice = Query::new(Item::AndChain(vec![single(&small), single(&small)]), true);
    assert_eq!(eval(&twice, &u).len(), 197);
}

#[test]
fn a_stored_posting_is_lent() {
    let mut a = Bitset::new();
    a.set(1);
    a.set(70);
    let mut u = Bitset::new();
    for id in [0, 1, 2, 70] {
        u.set(id);
    }
    let q = Query::new(Item::Single(Queryable::Borrowed(&a)), false);
    match evaluate(&q, &u) {
        EvalResult::Borrowed(b) => assert_eq!(b.iter(), vec![1, 70]),
        EvalResult::Owned(_) => panic!("a stored posting is lent"),
    }
    let not = Query::new(Item::Single(Queryable::Borrowed(&a)), true);
    match evaluate(&not, &u) {
        EvalResult::Owned(b) => assert_eq!(b.iter(), vec![0, 2]),
        EvalResult::Borrowed(_) => panic!("a complement is built"),
    }
}
