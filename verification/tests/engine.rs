use wordle_solver::simple::SimpleHelper;
use wordle_solver::{Helper, Hint, Spot};

fn preset_words() -> Vec<String> {
    vec!["hello".to_string(), "early".to_string(), "asset".to_string()]
}

#[test]
fn asset_fields() {
    let target = SimpleHelper::new(5, &["hello".to_string(), "early".to_string()]);
    assert_eq!(target.width, 5);
    assert_eq!(target.dict_words, vec!["hello", "early"]);
}

#[test]
fn filter_word_only_length_is_5() {
    let target = SimpleHelper::new(
        5,
        &[
            "hello".to_string(),
            "dog".to_string(),
            "in".to_string(),
            "early".to_string(),
            "difference".to_string(),
        ],
    );
    assert_eq!(target.dict_words, vec!["hello", "early"]);
}

#[test]
fn remove_word() {
    let mut target = SimpleHelper::new(5, &preset_words());
    target.add_hint("hello", &[]);
    assert_eq!(target.suggest(), &vec![String::from("asset"), String::from("early")]);
}

#[test]
fn a() {
    let mut target = SimpleHelper::new(5, &preset_words());
    target.add_hint("dummy", &[Hint { letter: 'a', spot: Spot::Nowhere() }]);
    assert_eq!(target.suggest(), &vec![String::from("hello")]);
}

#[test]
fn l() {
    let mut target = SimpleHelper::new(5, &preset_words());
    target.add_hint("dummy", &[Hint { letter: 'l', spot: Spot::Nowhere() }]);
    assert_eq!(target.suggest(), &vec![String::from("asset")]);
}

#[test]
fn none_but_include() {
    let mut actual = SimpleHelper::new(5, &["early".to_string()]);
    actual.add_hint(
        "robot",
        &[
            Hint { letter: 's', spot: Spot::Nowhere() },
            Hint { letter: 'k', spot: Spot::Nowhere() },
            Hint { letter: 'i', spot: Spot::Nowhere() },
            Hint { letter: 'l', spot: Spot::At(3) },
            Hint { letter: 'l', spot: Spot::Nowhere() },
        ],
    );
    assert_eq!(actual.suggest(), &vec![String::from("early")]);
}

#[test]
fn l_2() {
    let mut target = SimpleHelper::new(5, &preset_words());
    target.add_hint("dummy", &[Hint { letter: 'l', spot: Spot::InWithout(2) }]);
    assert_eq!(target.suggest(), &vec![String::from("early")]);
}

#[test]
fn e_0() {
    let mut target = SimpleHelper::new(5, &preset_words());
    target.add_hint("dummy", &[Hint { letter: 'e', spot: Spot::InWithout(0) }]);
    assert_eq!(target.suggest(), &vec![String::from("hello"), String::from("asset")]);
}

#[test]
fn t_4() {
    let mut target = SimpleHelper::new(5, &preset_words());
    target.add_hint("dummy", &[Hint { letter: 't', spot: Spot::At(4) }]);
    assert_eq!(target.suggest(), &vec![String::from("asset")]);
}

#[test]
fn multiple_1() {
    let mut target = SimpleHelper::new(
        5,
        &[
            "hello".to_string(),
            "early".to_string(),
            "asset".to_string(),
            "bound".to_string(),
            "heard".to_string(),
            "spice".to_string(),
        ],
    );
    target.add_hint(
        "bound",
        &[
            Hint::new('b', Spot::Nowhere()),
            Hint::new('o', Spot::Nowhere()),
            Hint::new('u', Spot::Nowhere()),
            Hint::new('n', Spot::Nowhere()),
            Hint::new('d', Spot::Nowhere()),
        ],
    );
    assert_eq!(
        target.suggest(),
        &vec![String::from("early"), String::from("asset"), String::from("spice")]
    );
    target.add_hint(
        "spice",
        &[
            Hint::new('s', Spot::InWithout(0)),
            Hint::new('p', Spot::Nowhere()),
            Hint::new('i', Spot::Nowhere()),
            Hint::new('c', Spot::Nowhere()),
            Hint::new('e', Spot::InWithout(4)),
        ],
    );
    assert_eq!(target.suggest(), &vec![String::from("asset")]);
}

#[test]
fn guess_letters_all_absent() {
    // A guess whose letters touch only one pooled word: "early" alone
    // contains a letter of "dummy" (its 'y'), so it alone leaves.
    let mut target = SimpleHelper::new(5, &preset_words());
    target.add_hint(
        "dummy",
        &[
            Hint::new('d', Spot::Nowhere()),
            Hint::new('u', Spot::Nowhere()),
            Hint::new('m', Spot::Nowhere()),
            Hint::new('m', Spot::Nowhere()),
            Hint::new('y', Spot::Nowhere()),
        ],
    );
    assert_eq!(target.suggest(), &vec![String::from("hello"), String::from("asset")]);
    assert_eq!(target.remained_words_length(), 2);
}

#[test]
fn full_feedback_single_absent_letter() {
    // Only 'a' among the pooled words' letters is reported absent; the other
    // entries name letters no pooled word contains.
    let mut target = SimpleHelper::new(5, &preset_words());
    target.add_hint(
        "dummy",
        &[
            Hint::new('a', Spot::Nowhere()),
            Hint::new('q', Spot::Nowhere()),
            Hint::new('q', Spot::Nowhere()),
            Hint::new('q', Spot::Nowhere()),
            Hint::new('q', Spot::Nowhere()),
        ],
    );
    assert_eq!(target.suggest(), &vec![String::from("hello")]);
    assert_eq!(target.remained_words_length(), 1);
}

#[test]
fn repeated_letter_keeps_absent_for_single_occurrence() {
    // The second 'o' is reported absent but another 'o' entry is positive, so
    // the shrink rule drops that entry.  The 'b' absent entry has no positive
    // twin and stays, and "boost" contains 'b': the pool empties.
    let mut target = SimpleHelper::new(5, &["boost".to_string()]);
    target.add_hint(
        "robot",
        &[
            Hint::new('r', Spot::Nowhere()),
            Hint::new('o', Spot::At(1)),
            Hint::new('b', Spot::Nowhere()),
            Hint::new('o', Spot::Nowhere()),
            Hint::new('t', Spot::At(4)),
        ],
    );
    assert_eq!(target.remained_words_length(), 0);
    assert_eq!(target.suggest(), &Vec::<String>::new());
}

#[test]
fn exhaustion_is_quiet() {
    // Feedback no pooled word satisfies empties the pool; later rounds still
    // answer without complaint.
    let mut target = SimpleHelper::new(5, &preset_words());
    target.add_hint("dummy", &[Hint::new('z', Spot::At(0))]);
    assert_eq!(target.remained_words_length(), 0);
    target.add_hint("dummy", &[Hint::new('z', Spot::At(0))]);
    assert_eq!(target.remained_words_length(), 0);
    assert_eq!(target.suggest(), &Vec::<String>::new());
}

#[test]
fn pool_only_shrinks() {
    let mut target = SimpleHelper::new(5, &preset_words());
    let before = target.remained_words_length();
    target.add_hint("dummy", &[Hint::new('e', Spot::InWithout(0))]);
    let after = target.remained_words_length();
    assert!(after <= before);
    let again = {
        target.add_hint("dummy", &[]);
        target.remained_words_length()
    };
    assert!(again <= after);
}

#[test]
fn guessed_word_never_suggested_again() {
    let mut target = SimpleHelper::new(5, &preset_words());
    target.add_hint("early", &[]);
    assert!(!target.suggest().contains(&String::from("early")));
}

#[test]
fn remaining_words_satisfy_every_round() {
    let mut target = SimpleHelper::new(5, &preset_words());
    target.add_hint("dummy", &[Hint::new('e', Spot::InWithout(0))]);
    target.add_hint("dummy", &[Hint::new('t', Spot::At(4))]);
    // "asset" alone contains an 'e' away from the front and ends in 't'.
    assert_eq!(target.suggest(), &vec![String::from("asset")]);
    for word in target.suggest() {
        assert!(word.contains('e') && !word.starts_with('e'));
        assert!(word.ends_with('t'));
    }
}

#[test]
fn preshrunk_feedback_narrows_identically() {
    let hints = vec![
        Hint::new('r', Spot::Nowhere()),
        Hint::new('o', Spot::At(1)),
        Hint::new('b', Spot::Nowhere()),
        Hint::new('o', Spot::Nowhere()),
        Hint::new('t', Spot::At(4)),
    ];
    let words = vec![
        "boost".to_string(),
        "wooly".to_string(),
        "motto".to_string(),
        "covet".to_string(),
    ];
    let mut plain = SimpleHelper::new(5, &words);
    plain.add_hint("robot", &hints);
    let mut preshrunk = SimpleHelper::new(5, &words);
    let shrunk = SimpleHelper::shrink_hints(&hints);
    preshrunk.add_hint("robot", &shrunk);
    assert_eq!(plain.suggest(), preshrunk.suggest());
    assert_eq!(plain.suggest(), &vec![String::from("covet")]);
}

#[test]
fn zero_width_engine_pools_nothing() {
    let target = SimpleHelper::new(0, &preset_words());
    assert_eq!(target.remained_words_length(), 0);
}
