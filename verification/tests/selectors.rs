use turing_lang::concrete::Selector;
use turing_lang::resolved::ResolvedSelector;

fn reference(sel: &ResolvedSelector, sym: u8) -> bool {
    match sel {
        ResolvedSelector::Or(v) => {
            let mut any = false;
            for s in v {
                any = any | reference(s, sym);
            }
            any
        }
        ResolvedSelector::And(v) => {
            let mut all = true;
            for s in v {
                all = all & reference(s, sym);
            }
            all
        }
        ResolvedSelector::Not(s) => !reference(s, sym),
        ResolvedSelector::All => true,
        ResolvedSelector::Range(a, b) => *a <= sym && sym <= *b,
        ResolvedSelector::Elem(e) => *e == sym,
    }
}

fn samples() -> Vec<ResolvedSelector> {
    vec![
        ResolvedSelector::All,
        ResolvedSelector::Elem(0),
        ResolvedSelector::Elem(255),
        ResolvedSelector::Range(10, 20),
        ResolvedSelector::Range(20, 10),
        ResolvedSelector::Range(0, 255),
        ResolvedSelector::Or(vec![]),
        ResolvedSelector::And(vec![]),
        ResolvedSelector::Not(Box::new(ResolvedSelector::All)),
        ResolvedSelector::Or(vec![ResolvedSelector::Elem(1), ResolvedSelector::Elem(2)]),
        ResolvedSelector::And(vec![
            ResolvedSelector::Range(b'a', b'z'),
            ResolvedSelector::Not(Box::new(ResolvedSelector::Elem(b'q'))),
        ]),
        ResolvedSelector::Not(Box::new(ResolvedSelector::Or(vec![
            ResolvedSelector::Range(0, 100),
            ResolvedSelector::And(vec![
                ResolvedSelector::Range(90, 200),
                ResolvedSelector::Not(Box::new(ResolvedSelector::Range(150, 160))),
            ]),
        ]))),
    ]
}

#[test]
fn contains_agrees_with_reference_on_every_symbol() {
    for sel in samples() {
        for sym in 0..=255u8 {
            assert_eq!(sel.contains(sym), reference(&sel, sym), "{:?} at {}", sel, sym);
        }
    }
}

#[test]
fn contains_range_is_inclusive() {
    let sel = ResolvedSelector::Range(10, 20);
    assert!(!sel.contains(9));
    assert!(sel.contains(10));
    assert!(sel.contains(15));
    assert!(sel.contains(20));
    assert!(!sel.contains(21));
}

#[test]
fn contains_empty_or_is_nothing_and_empty_and_is_everything() {
    let none = ResolvedSelector::Or(vec![]);
    let every = ResolvedSelector::And(vec![]);
    for sym in 0..=255u8 {
        assert!(!none.contains(sym));
        assert!(every.contains(sym));
    }
}

#[test]
fn full_range_equals_all() {
    assert_eq!(ResolvedSelector::Range(0, 255), ResolvedSelector::All);
    assert_eq!(
        ResolvedSelector::Range(0, 255).canonical_key(),
        ResolvedSelector::All.canonical_key()
    );
}

#[test]
fn or_of_neighbours_equals_range() {
    let or = ResolvedSelector::Or(vec![ResolvedSelector::Elem(1), ResolvedSelector::Elem(2)]);
    let range = ResolvedSelector::Range(1, 2);
    assert_eq!(or, range);
    assert_eq!(or.canonical_key(), range.canonical_key());
}

#[test]
fn different_membership_is_unequal() {
    let a = ResolvedSelector::Range(1, 2);
    let b = ResolvedSelector::Range(1, 3);
    assert_ne!(a, b);
    assert_ne!(a.canonical_key(), b.canonical_key());
    assert_ne!(ResolvedSelector::Elem(255), ResolvedSelector::Or(vec![]));
    assert_ne!(ResolvedSelector::Elem(0), ResolvedSelector::Or(vec![]));
}

#[test]
fn canonical_key_equality_matches_membership_on_all_pairs() {
    let all = samples();
    for a in &all {
        for b in &all {
            let same_members = (0..=255u8).all(|c| a.contains(c) == b.contains(c));
            assert_eq!(a.canonical_key() == b.canonical_key(), same_members);
            assert_eq!(a == b, same_members);
        }
    }
}

#[test]
fn clone_keeps_membership() {
    for sel in samples() {
        let copy = sel.clone();
        assert_eq!(copy, sel);
    }
}

#[test]
fn concrete_selector_matches() {
    assert!(Selector::All.matches(0));
    assert!(Selector::All.matches(255));
    let chars = Selector::Chars(vec![b'a', b'c']);
    assert!(chars.matches(b'a'));
    assert!(!chars.matches(b'b'));
    assert!(chars.matches(b'c'));
    assert!(!Selector::Chars(vec![]).matches(0));
}
