use lindenmayer::builder::LSystem;
use lindenmayer::choice::{can_draw, draw_rule, every_rule_can_draw};
use lindenmayer::eager::rewrite_text_drawing;
use lindenmayer::rng::SystemRng;
use lindenmayer::stochastic::{LSystemBuilderStochastic, LSystemStochastic};
use lindenmayer::writer::write_lsystem_stochastic;
use rand::SeedableRng;
use std::collections::HashMap;

fn plant() -> LSystemStochastic {
    let rules = [
        ('X', vec![("F[X][+DX]-DX", 1)]),
        ('D', vec![("F", 2), ("FF", 1), ("D", 1)]),
    ];
    let system = LSystemStochastic::new(String::from("X"), &rules);
    assert!(system.is_well_formed());
    system
}

fn drain_drawing(builder: &mut LSystemBuilderStochastic) -> String {
    let mut out = String::new();
    while let Some(c) = builder.next() {
        out.push(c);
    }
    out
}

#[test]
fn a_seeded_string_is_the_same_every_time() {
    let system = plant();
    for seed in [0, 1, 19251989, u64::MAX] {
        let first = system.string(4, Some(seed));
        let second = system.string(4, Some(seed));
        assert_eq!(first, second);
        let other = plant();
        assert_eq!(first, other.string(4, Some(seed)));
    }
}

#[test]
fn a_seeded_builder_is_the_same_every_time() {
    let system = plant();
    for seed in [0, 7, 19251989] {
        let first = drain_drawing(&mut system.builder(4, Some(seed)));
        let second = drain_drawing(&mut LSystemBuilderStochastic::new(&system, 4, Some(seed)));
        assert_eq!(first, second);
        let generator = SystemRng::seed_from_u64(seed);
        let third = LSystemBuilderStochastic::with_generator(&system, 4, generator).collect();
        assert_eq!(first, third);
    }
}

#[test]
fn seeds_decide_the_word() {
    let system = plant();
    let words: Vec<String> = (0..32).map(|seed| system.string(4, Some(seed))).collect();
    assert!(words.iter().any(|word| *word != words[0]));
    let lazy: Vec<String> =
        (0..32).map(|seed| drain_drawing(&mut system.builder(4, Some(seed)))).collect();
    assert!(lazy.iter().any(|word| *word != lazy[0]));
}

#[test]
fn unseeded_runs_produce_words_of_the_system() {
    let rules = [('X', vec![("a", 1), ("b", 1)])];
    let system = LSystemStochastic::new(String::from("XXXX"), &rules);
    assert!(system.is_well_formed());
    let eager = system.string(1, None);
    assert_eq!(4, eager.len());
    assert!(eager.chars().all(|c| c == 'a' || c == 'b'));
    let lazy = drain_drawing(&mut system.builder(1, None));
    assert_eq!(4, lazy.len());
    assert!(lazy.chars().all(|c| c == 'a' || c == 'b'));
}

#[test]
fn weights_set_the_odds() {
    let rules = [('X', vec![("A", 2), ("B", 1)])];
    let system = LSystemStochastic::new(String::from("X"), &rules);
    assert!(system.is_well_formed());
    let trials = 6000;
    let mut first = 0;
    let mut second = 0;
    for seed in 0..trials {
        match system.string(1, Some(seed)).as_str() {
            "A" => first += 1,
            "B" => second += 1,
            other => panic!("unexpected word {}", other),
        }
    }
    assert_eq!(trials, first + second);
    assert!(3800 < first && first < 4200, "A was drawn {} times", first);
    let ratio = first as f64 / second as f64;
    assert!(1.8 < ratio && ratio < 2.2, "ratio {}", ratio);
}

#[test]
fn weights_set_the_odds_within_one_run() {
    let rules = [('X', vec![("A", 2), ("B", 1)])];
    let long = "X".repeat(9000);
    let system = LSystemStochastic::new(long, &rules);
    assert!(system.is_well_formed());
    let word = drain_drawing(&mut system.builder(1, None));
    assert_eq!(9000, word.len());
    let first = word.chars().filter(|c| *c == 'A').count();
    assert!(5700 < first && first < 6300, "A was drawn {} times", first);
}

#[test]
fn a_candidate_of_weight_zero_is_never_drawn() {
    let rules = [('X', vec![("never", 0), ("always", 5), ("nor this", 0)])];
    let system = LSystemStochastic::new(String::from("X"), &rules);
    assert!(system.is_well_formed());
    for seed in 0..500 {
        assert_eq!("always", system.string(1, Some(seed)));
        assert_eq!("always", drain_drawing(&mut system.builder(1, Some(seed))));
    }
}

#[test]
fn single_candidates_rewrite_as_a_deterministic_system() {
    let rules = [('X', vec![("F[X][+DX]-DX", 3)]), ('D', vec![("F", 1)])];
    let system = LSystemStochastic::new(String::from("X"), &rules);
    assert!(system.is_well_formed());
    let plain = LSystem::new(String::from("X"), &[('X', "F[X][+DX]-DX"), ('D', "F")]);
    for depth in 0..5 {
        assert_eq!(plain.string(depth), system.string(depth, Some(11)));
        assert_eq!(plain.string(depth), system.string(depth, None));
        assert_eq!(plain.string(depth), drain_drawing(&mut system.builder(depth, Some(12))));
    }
    assert_eq!(
        "F[F[X][+DX]-DX][+FF[X][+DX]-DX]-FF[X][+DX]-DX",
        system.string(2, Some(19251989))
    );
}

#[test]
fn stochastic_depth_zero_gives_the_axiom() {
    let system = plant();
    assert_eq!("X", system.string(0, Some(3)));
    assert_eq!("X", system.string(0, None));
    assert_eq!("X", drain_drawing(&mut system.builder(0, Some(3))));
}

#[test]
fn stochastic_terminals_pass_through() {
    let rules = [('X', vec![("X+", 1), ("+X", 1)])];
    let system = LSystemStochastic::new(String::from("[X]"), &rules);
    assert!(system.is_well_formed());
    for seed in 0..20 {
        let word = system.string(3, Some(seed));
        assert_eq!(6, word.len());
        assert!(word.starts_with('['));
        assert!(word.ends_with(']'));
        assert_eq!(3, word.chars().filter(|c| *c == '+').count());
        let lazy = drain_drawing(&mut system.builder(3, Some(seed)));
        assert!(lazy.starts_with('[') && lazy.ends_with(']'));
        assert_eq!(3, lazy.chars().filter(|c| *c == '+').count());
    }
}

#[test]
fn a_self_feeding_stochastic_rule_terminates() {
    let rules = [('A', vec![("AA", 1), ("A", 1), ("", 1)])];
    let system = LSystemStochastic::new(String::from("AAAA"), &rules);
    assert!(system.is_well_formed());
    for seed in 0..10 {
        let word = system.string(8, Some(seed));
        assert!(word.len() <= 1024);
        let lazy = drain_drawing(&mut system.builder(8, Some(seed)));
        assert!(lazy.len() <= 1024);
        assert!(lazy.chars().all(|c| c == 'A'));
    }
}

#[test]
fn get_draws_one_of_the_candidates() {
    let system = plant();
    let mut generator = SystemRng::seed_from_u64(5);
    let mut seen = [0, 0, 0];
    for _ in 0..400 {
        match system.get(&'D', &mut generator).map(|rule| rule.as_str()) {
            Some("F") => seen[0] += 1,
            Some("FF") => seen[1] += 1,
            Some("D") => seen[2] += 1,
            other => panic!("unexpected rule {:?}", other),
        }
    }
    assert!(seen[0] > seen[1] && seen[0] > seen[2]);
    assert!(seen[1] > 0 && seen[2] > 0);
    assert_eq!(Some(&String::from("F[X][+DX]-DX")), system.get(&'X', &mut generator));
}

#[test]
fn get_leaves_the_generator_alone_on_a_terminal() {
    let system = plant();
    let mut generator = SystemRng::seed_from_u64(5);
    let before = generator.clone();
    assert_eq!(None, system.get(&'+', &mut generator));
    assert_eq!(before, generator);
    assert!(system.get(&'D', &mut generator).is_some());
    assert_ne!(before, generator);
}

#[test]
fn get_follows_the_generator() {
    let system = plant();
    let mut one = SystemRng::seed_from_u64(77);
    let mut two = SystemRng::seed_from_u64(77);
    for _ in 0..50 {
        assert_eq!(system.get(&'D', &mut one), system.get(&'D', &mut two));
    }
    assert_eq!(one, two);
}

#[test]
fn draw_rule_reads_borrowed_tables() {
    let rules = HashMap::from([('X', vec![("left", 1), ("right", 0)])]);
    let mut generator = SystemRng::seed_from_u64(1);
    assert_eq!(Some(&"left"), draw_rule(&rules, 'X', &mut generator));
    assert_eq!(None, draw_rule(&rules, 'Y', &mut generator));
}

#[test]
fn can_draw_wants_a_positive_sum_that_fits() {
    let none: Vec<(&str, u32)> = vec![];
    assert!(!can_draw(&none));
    assert!(!can_draw(&vec![("a", 0)]));
    assert!(!can_draw(&vec![("a", 0), ("b", 0)]));
    assert!(can_draw(&vec![("a", 0), ("b", 1)]));
    assert!(can_draw(&vec![("a", u32::MAX)]));
    assert!(can_draw(&vec![("a", u32::MAX - 1), ("b", 1)]));
    assert!(!can_draw(&vec![("a", u32::MAX), ("b", 1)]));
    assert!(!can_draw(&vec![("a", u32::MAX), ("b", u32::MAX), ("c", 2)]));
}

#[test]
fn well_formed_systems_have_drawable_rules() {
    assert!(plant().is_well_formed());
    let no_rules: [(char, Vec<(&str, u32)>); 0] = [];
    assert!(LSystemStochastic::new(String::from("X"), &no_rules).is_well_formed());
    let empty = [('X', vec![("a", 1)]), ('Y', vec![])];
    assert!(!LSystemStochastic::new(String::from("X"), &empty).is_well_formed());
    let zero = [('X', vec![("a", 0), ("b", 0)]), ('Y', vec![("c", 1)])];
    assert!(!LSystemStochastic::new(String::from("X"), &zero).is_well_formed());
    let too_heavy = [('X', vec![("a", u32::MAX), ("b", 1)])];
    assert!(!LSystemStochastic::new(String::from("X"), &too_heavy).is_well_formed());
}

#[test]
fn stochastic_new_keeps_rules_and_axiom() {
    let rules = [('X', vec![("a", 1)]), ('Y', vec![("b", 2), ("c", 3)]), ('X', vec![("d", 4)])];
    let system = LSystemStochastic::new(String::from("XY"), &rules);
    assert_eq!("XY", system.initiator);
    assert_eq!(2, system.rules.len());
    assert_eq!(vec![(String::from("d"), 4)], system.rules[&'X']);
    assert_eq!(vec![(String::from("b"), 2), (String::from("c"), 3)], system.rules[&'Y']);
}

#[test]
fn a_cloned_builder_goes_on_like_its_source() {
    let system = plant();
    let mut builder = system.builder(5, Some(42));
    for _ in 0..10 {
        assert!(builder.next().is_some());
    }
    let mut copy = builder.clone();
    assert_eq!(drain_drawing(&mut builder), drain_drawing(&mut copy));
}

#[test]
fn string_with_moves_the_generator_on() {
    let system = plant();
    let mut generator = SystemRng::seed_from_u64(9);
    let first = system.string_with(3, &mut generator);
    assert_eq!(first, system.string(3, Some(9)));
    let mut again = SystemRng::seed_from_u64(9);
    assert_eq!(first, system.string_with(3, &mut again));
    assert_eq!(generator, again);
    assert_ne!(generator, SystemRng::seed_from_u64(9));
}

#[test]
fn the_free_function_draws_as_the_system_does() {
    let rules = HashMap::from([
        ('X', vec![("F[X][+DX]-DX", 1)]),
        ('D', vec![("F", 2), ("FF", 1), ("D", 1)]),
    ]);
    assert!(every_rule_can_draw(&rules));
    let system = plant();
    for seed in 0..8 {
        let written = write_lsystem_stochastic("X", &rules, 4, Some(seed));
        assert_eq!(written, write_lsystem_stochastic("X", &rules, 4, Some(seed)));
        assert_eq!(written, system.string(4, Some(seed)));
    }
    assert_eq!("X", write_lsystem_stochastic("X", &rules, 0, None));
}

#[test]
fn tables_are_checked_rule_by_rule() {
    let fine = HashMap::from([('X', vec![("a", 1), ("b", 0)]), ('Y', vec![("c", 7)])]);
    assert!(every_rule_can_draw(&fine));
    let none: HashMap<char, Vec<(&str, u32)>> = HashMap::new();
    assert!(every_rule_can_draw(&none));
    let empty = HashMap::from([('X', vec![("a", 1)]), ('Y', vec![])]);
    assert!(!every_rule_can_draw(&empty));
    let zero = HashMap::from([('X', vec![("a", 0)]), ('Y', vec![("c", 7)])]);
    assert!(!every_rule_can_draw(&zero));
    let owned = HashMap::from([('X', vec![(String::from("a"), u32::MAX), (String::from("b"), 1)])]);
    assert!(!every_rule_can_draw(&owned));
}

#[test]
fn the_free_function_draws_among_the_candidates() {
    let rules = HashMap::from([('X', vec![("A", 2), ("B", 1)])]);
    assert!(every_rule_can_draw(&rules));
    let mut first = 0;
    for seed in 0..3000 {
        match write_lsystem_stochastic("X", &rules, 1, Some(seed)).as_str() {
            "A" => first += 1,
            "B" => {}
            other => panic!("unexpected word {}", other),
        }
    }
    assert!(1900 < first && first < 2100, "A was drawn {} times", first);
}

fn undrawable() -> LSystemStochastic {
    let rules = [('X', vec![]), ('Y', vec![("a", 0), ("b", 0)]), ('Z', vec![("c", 1)])];
    let system = LSystemStochastic::new(String::from("XYZ+"), &rules);
    assert!(!system.is_well_formed());
    system
}

#[test]
fn depth_zero_needs_no_drawable_rules() {
    let system = undrawable();
    assert_eq!("XYZ+", system.string(0, Some(4)));
    assert_eq!("XYZ+", system.string(0, None));
    let mut generator = SystemRng::seed_from_u64(4);
    assert_eq!("XYZ+", system.string_with(0, &mut generator));
    assert_eq!(SystemRng::seed_from_u64(4), generator);
    assert_eq!("XYZ+", drain_drawing(&mut system.builder(0, Some(4))));
    assert_eq!("XYZ+", system.builder(0, None).collect());
    let rules = HashMap::from([('X', vec![]), ('Y', vec![("a", 0)])]);
    assert!(!every_rule_can_draw(&rules));
    assert_eq!("XY", write_lsystem_stochastic("XY", &rules, 0, Some(1)));
    assert_eq!("XY", write_lsystem_stochastic("XY", &rules, 0, None));
}

#[test]
fn a_builder_is_made_without_looking_at_the_rules() {
    let system = undrawable();
    let seeded = system.builder(6, Some(1));
    let unseeded = LSystemBuilderStochastic::new(&system, 6, None);
    let given = LSystemBuilderStochastic::with_generator(&system, 6, SystemRng::seed_from_u64(1));
    let copy = seeded.clone();
    drop((seeded, unseeded, given, copy));
}

#[test]
fn one_round_needs_only_the_rules_of_its_word() {
    let rules = HashMap::from([('X', vec![]), ('Z', vec![("c", 1)])]);
    let mut generator = SystemRng::seed_from_u64(8);
    assert_eq!("c+c", rewrite_text_drawing("Z+Z", &rules, &mut generator));
    assert_eq!("", rewrite_text_drawing("", &rules, &mut generator));
}

#[test]
fn one_candidate_for_each_symbol_leaves_no_choice() {
    let rules = [('A', vec![("AB", 1)]), ('B', vec![("A", 1)])];
    let system = LSystemStochastic::new(String::from("A"), &rules);
    assert!(system.is_well_formed());
    assert_eq!("ABAABABAABAAB", system.string(5, Some(1)));
    assert_eq!("ABAABABAABAAB", system.string(5, None));
    assert_eq!("ABAABABAABAAB", system.builder(5, Some(42)).collect());
    assert_eq!("ABAABABAABAAB", drain_drawing(&mut system.builder(5, None)));
    let table = HashMap::from([('A', vec![("AB", 1)]), ('B', vec![("A", 1)])]);
    assert!(every_rule_can_draw(&table));
    assert_eq!("ABAABABAABAAB", write_lsystem_stochastic("A", &table, 5, Some(3)));
    assert_eq!("ABAABABAABAAB", write_lsystem_stochastic("A", &table, 5, None));
}

#[test]
fn an_exhausted_stochastic_builder_stays_exhausted() {
    let system = plant();
    let mut builder = system.builder(2, Some(3));
    let word = drain_drawing(&mut builder);
    assert!(!word.is_empty());
    let copy = builder.clone();
    assert_eq!(None, builder.next());
    assert_eq!(None, builder.next());
    assert_eq!("", builder.collect());
    assert_eq!(format!("{:?}", copy), format!("{:?}", builder));
}
