use lindenmayer::builder::{LSystem, LSystemBuilder};
use lindenmayer::writer::{write_lsystem, write_lsystem_sequence};
use std::collections::HashMap;

fn drain(builder: &mut LSystemBuilder) -> String {
    let mut out = String::new();
    while let Some(c) = builder.next() {
        out.push(c);
    }
    out
}

#[test]
fn validity_test() {
    let initiator = String::from("X");
    let rules = [('X', "F[X][+DX]-DX"), ('D', "F")];

    let system = LSystem::new(initiator, &rules);

    let depth = 3;

    let s = system.string(depth);
    let mut e = system.builder(depth);

    let mut expected = s.chars();
    let mut all_equal = true;
    while let Some(a) = e.next() {
        match expected.next() {
            Some(b) => all_equal = all_equal && a == b,
            None => break,
        }
    }
    assert!(all_equal)
}

#[test]
fn validation_test() {
    let initiator = "A";
    let rules = HashMap::from([('A', "AB"), ('B', "A")]);
    let depth = 5;

    assert_eq!("ABAABABAABAAB", write_lsystem(initiator, &rules, depth))
}

#[test]
fn size_test() {
    let initiator = "X";
    let rules = HashMap::from([('X', "F[X][+DX]-DX"), ('D', "F")]);
    let depth = 10;

    let s = write_lsystem(initiator, &rules, depth);

    println!("depth: {}\n{} kilobytes", depth, s.len() / 1000)
}

#[test]
fn plant_at_depth_two_eager_and_lazy() {
    let system = LSystem::new(String::from("X"), &[('X', "F[X][+DX]-DX"), ('D', "F")]);
    let expected = "F[F[X][+DX]-DX][+FF[X][+DX]-DX]-FF[X][+DX]-DX";
    assert_eq!(expected, system.string(2));
    assert_eq!(expected, drain(&mut system.builder(2)));
    assert_eq!(expected, system.builder(2).collect());
}

#[test]
fn algae_at_depth_five_eager_and_lazy() {
    let system = LSystem::new(String::from("A"), &[('A', "AB"), ('B', "A")]);
    assert_eq!("ABAABABAABAAB", system.string(5));
    assert_eq!("ABAABABAABAAB", drain(&mut system.builder(5)));
}

#[test]
fn lazy_matches_eager_at_every_depth() {
    let system = LSystem::new(String::from("F+X"), &[('X', "X+YF+"), ('Y', "-FX-Y"), ('F', "")]);
    for depth in 0..9 {
        assert_eq!(system.string(depth), drain(&mut system.builder(depth)));
    }
}

#[test]
fn depth_zero_gives_the_axiom() {
    let system = LSystem::new(String::from("XDX"), &[('X', "F[X][+DX]-DX"), ('D', "F")]);
    assert_eq!("XDX", system.string(0));
    assert_eq!("XDX", drain(&mut system.builder(0)));
    let rules = HashMap::from([('X', "YY")]);
    assert_eq!("XDX", write_lsystem("XDX", &rules, 0));
}

#[test]
fn depth_zero_on_an_empty_axiom() {
    let system = LSystem::new(String::new(), &[('X', "XX")]);
    assert_eq!("", system.string(0));
    assert_eq!(None, system.builder(0).next());
    assert_eq!(None, system.builder(4).next());
}

#[test]
fn symbols_without_a_rule_pass_through() {
    let system = LSystem::new(String::from("a+b"), &[('a', "ab")]);
    assert_eq!("a+b", system.string(0));
    assert_eq!("ab+b", system.string(1));
    assert_eq!("abbb+b", system.string(3));
    assert_eq!("abbb+b", drain(&mut system.builder(3)));
    let no_rules: [(char, &str); 0] = [];
    let inert = LSystem::new(String::from("xyz"), &no_rules);
    for depth in 0..5 {
        assert_eq!("xyz", inert.string(depth));
        assert_eq!("xyz", drain(&mut inert.builder(depth)));
    }
}

#[test]
fn a_rule_that_contains_its_own_symbol_terminates() {
    let system = LSystem::new(String::from("A"), &[('A', "AA")]);
    let word = system.string(10);
    assert_eq!(1024, word.len());
    assert!(word.chars().all(|c| c == 'A'));
    assert_eq!(word, drain(&mut system.builder(10)));
}

#[test]
fn an_empty_replacement_emits_nothing() {
    let system = LSystem::new(String::from("aXbXc"), &[('X', "")]);
    assert_eq!("abc", system.string(1));
    assert_eq!("abc", drain(&mut system.builder(1)));
    assert_eq!("abc", drain(&mut system.builder(4)));
    let vanishing = LSystem::new(String::from("XX"), &[('X', "Y"), ('Y', "")]);
    assert_eq!("YY", vanishing.string(1));
    assert_eq!("", vanishing.string(2));
    assert_eq!(None, vanishing.builder(2).next());
    assert_eq!(None, vanishing.builder(7).next());
}

#[test]
fn an_exhausted_builder_stays_exhausted() {
    let system = LSystem::new(String::from("A"), &[('A', "AB"), ('B', "A")]);
    let mut builder = system.builder(2);
    assert_eq!(Some('A'), builder.next());
    assert_eq!(Some('B'), builder.next());
    assert_eq!(Some('A'), builder.next());
    assert_eq!(None, builder.next());
    assert_eq!(None, builder.next());
    assert_eq!("", builder.collect());
}

#[test]
fn collect_hands_out_what_is_left() {
    let system = LSystem::new(String::from("A"), &[('A', "AB"), ('B', "A")]);
    let mut builder = system.builder(4);
    assert_eq!(Some('A'), builder.next());
    assert_eq!(Some('B'), builder.next());
    assert_eq!("AABABA", builder.collect());
    assert_eq!(None, builder.next());
}

#[test]
fn a_deep_builder_needs_no_deep_word() {
    let system = LSystem::new(String::from("ab"), &[('a', "a"), ('c', "cc")]);
    let mut builder = LSystemBuilder::new(&system, 200_000);
    assert_eq!(Some('a'), builder.next());
    assert_eq!(Some('b'), builder.next());
    assert_eq!(None, builder.next());
}

#[test]
fn the_last_rule_for_a_symbol_counts() {
    let system = LSystem::new(String::from("X"), &[('X', "a"), ('Y', "b"), ('X', "c")]);
    assert_eq!(Some(&String::from("c")), system.get(&'X'));
    assert_eq!(Some(&String::from("b")), system.get(&'Y'));
    assert_eq!(None, system.get(&'Z'));
    assert_eq!("c", system.string(1));
}

#[test]
fn new_keeps_the_axiom() {
    let system = LSystem::new(String::from("F-F-F"), &[('F', "F+F")]);
    assert_eq!("F-F-F", system.initiator);
    assert_eq!(1, system.rules.len());
}

#[test]
fn symbols_outside_ascii() {
    let system = LSystem::new(String::from("αβ→"), &[('α', "αβ"), ('β', "🌿α")]);
    assert_eq!("αβ🌿α→", system.string(1));
    assert_eq!("αβ🌿α🌿αβ→", system.string(2));
    assert_eq!("αβ🌿α🌿αβ→", drain(&mut system.builder(2)));
    let rules = HashMap::from([('é', "éé")]);
    assert_eq!("ééééxéééé", write_lsystem("éxé", &rules, 2));
}

#[test]
fn sequence_holds_every_round() {
    let rules = HashMap::from([('A', "AB"), ('B', "A")]);
    let words = write_lsystem_sequence("A", &rules, 5);
    assert_eq!(vec!["A", "AB", "ABA", "ABAAB", "ABAABABA", "ABAABABAABAAB"], words);
    let only = write_lsystem_sequence("A", &rules, 0);
    assert_eq!(vec!["A"], only);
}

#[test]
fn sequence_ends_in_the_written_word() {
    let rules = HashMap::from([('X', "F[X][+DX]-DX"), ('D', "F")]);
    let words = write_lsystem_sequence("X", &rules, 4);
    assert_eq!(5, words.len());
    for depth in 0..5 {
        assert_eq!(write_lsystem("X", &rules, depth), words[depth]);
    }
}

#[test]
fn display_test() {
    let initiator = String::from("X");
    let rules = [('X', "F[X][+DX]-DX"), ('D', "F")];

    let system = LSystem::new(initiator, &rules);

    assert_eq!(
        "Axiom: X\nRules:\n  X => F[X][+DX]-DX\n  D => F\n",
        system.to_text()
    );
}

#[test]
fn to_text_of_a_system_without_rules() {
    let no_rules: [(char, &str); 0] = [];
    let system = LSystem::new(String::from("F+F"), &no_rules);
    assert_eq!("Axiom: F+F\nRules:\n", system.to_text());
    let one = LSystem::new(String::new(), &[('F', "")]);
    assert_eq!("Axiom: \nRules:\n  F => \n", one.to_text());
}

#[test]
fn a_cloned_builder_has_the_same_symbols_to_come() {
    let system = LSystem::new(String::from("X"), &[('X', "F[X][+DX]-DX"), ('D', "F")]);
    let mut builder = system.builder(3);
    for _ in 0..7 {
        assert!(builder.next().is_some());
    }
    let mut copy = builder.clone();
    let rest = drain(&mut builder);
    assert!(!rest.is_empty());
    assert_eq!(rest, drain(&mut copy));
}

#[test]
fn an_exhausted_builder_is_left_as_it_is() {
    let system = LSystem::new(String::from("aXb"), &[('X', "")]);
    let mut builder = system.builder(3);
    assert_eq!("ab", drain(&mut builder));
    let at_the_end = format!("{:?}", builder);
    assert_eq!(None, builder.next());
    assert_eq!(at_the_end, format!("{:?}", builder));
    assert_eq!(None, builder.next());
    assert_eq!(at_the_end, format!("{:?}", builder));
}
