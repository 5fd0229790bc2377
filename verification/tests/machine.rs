use lindenmayer::eager::{expand_text, rewrite_text, Text};
use lindenmayer::layers::{LayerStack, Pull};
use lindenmayer::text::{append_successor, encoded_width, split_first};
use std::collections::HashMap;

#[test]
fn split_first_steps_through_a_text() {
    assert_eq!(None, split_first(""));
    assert_eq!(Some(('a', "")), split_first("a"));
    assert_eq!(Some(('a', "bc")), split_first("abc"));
    assert_eq!(Some(('é', "t🌿")), split_first("ét🌿"));
    assert_eq!(Some(('🌿', "x")), split_first("🌿x"));
}

#[test]
fn encoded_width_of_each_size() {
    assert_eq!(1, encoded_width('a'));
    assert_eq!(1, encoded_width('\u{7f}'));
    assert_eq!(2, encoded_width('\u{80}'));
    assert_eq!(2, encoded_width('é'));
    assert_eq!(2, encoded_width('\u{7ff}'));
    assert_eq!(3, encoded_width('\u{800}'));
    assert_eq!(3, encoded_width('→'));
    assert_eq!(3, encoded_width('\u{ffff}'));
    assert_eq!(4, encoded_width('\u{10000}'));
    assert_eq!(4, encoded_width('🌿'));
    assert_eq!(4, encoded_width('\u{10ffff}'));
}

#[test]
fn append_successor_appends_body_or_symbol() {
    let mut out = String::from("ab");
    append_successor(&mut out, 'X', Some("F[X]"));
    assert_eq!("abF[X]", out);
    append_successor(&mut out, '+', None);
    assert_eq!("abF[X]+", out);
    append_successor(&mut out, 'Y', Some(""));
    assert_eq!("abF[X]+", out);
}

#[test]
fn text_reads_strings_and_slices() {
    assert_eq!("owned", String::from("owned").as_text());
    assert_eq!("borrowed", "borrowed".as_text());
}

#[test]
fn rewrite_text_does_one_round() {
    let rules = HashMap::from([('A', "AB"), ('B', "A")]);
    assert_eq!("", rewrite_text("", &rules));
    assert_eq!("AB", rewrite_text("A", &rules));
    assert_eq!("ABxA", rewrite_text("AxB", &rules));
    let owned = HashMap::from([('A', String::from("AB")), ('B', String::from("A"))]);
    assert_eq!("ABxA", rewrite_text("AxB", &owned));
    assert_eq!("ABAAB", expand_text("A", &owned, 3));
}

#[test]
fn a_fresh_stack_holds_the_axiom_on_top() {
    let mut stack = LayerStack::new("ab", 2);
    assert_eq!(2, stack.depth());
    assert_eq!(Pull::Resolve('a'), stack.poll());
    assert_eq!(Pull::Resolve('b'), stack.poll());
    assert_eq!(Pull::Exhausted, stack.poll());
    assert_eq!(Pull::Exhausted, stack.poll());
}

#[test]
fn a_stack_of_depth_zero_emits_the_axiom() {
    let mut stack = LayerStack::new("ab", 0);
    assert_eq!(0, stack.depth());
    assert_eq!(Pull::Emit('a'), stack.poll());
    assert_eq!(Pull::Emit('b'), stack.poll());
    assert_eq!(Pull::Exhausted, stack.poll());
}

#[test]
fn descend_installs_one_layer_lower() {
    let mut stack = LayerStack::new("XY", 2);
    assert_eq!(Pull::Resolve('X'), stack.poll());
    stack.descend("pq");
    assert_eq!(Pull::Resolve('p'), stack.poll());
    stack.descend("12");
    assert_eq!(Pull::Emit('1'), stack.poll());
    assert_eq!(Pull::Emit('2'), stack.poll());
    assert_eq!(Pull::Resolve('q'), stack.poll());
    assert_eq!(Pull::Resolve('Y'), stack.poll());
    stack.descend("");
    assert_eq!(Pull::Exhausted, stack.poll());
}

#[test]
fn descend_with_chosen_replacements() {
    let mut stack = LayerStack::new("XX", 1);
    assert_eq!(Pull::Resolve('X'), stack.poll());
    stack.descend("left");
    let mut word = String::new();
    loop {
        match stack.poll() {
            Pull::Emit(c) => word.push(c),
            Pull::Resolve(_) => stack.descend("right"),
            Pull::Exhausted => break,
        }
    }
    assert_eq!("leftright", word);
}

#[test]
fn a_cloned_stack_is_in_the_same_state() {
    let mut stack = LayerStack::new("XY", 1);
    assert_eq!(Pull::Resolve('X'), stack.poll());
    stack.descend("ab");
    assert_eq!(Pull::Emit('a'), stack.poll());
    let mut copy = stack.clone();
    assert_eq!(1, copy.depth());
    assert_eq!(Pull::Emit('b'), stack.poll());
    assert_eq!(Pull::Emit('b'), copy.poll());
    assert_eq!(Pull::Resolve('Y'), copy.poll());
    assert_eq!(Pull::Resolve('Y'), stack.poll());
}
