use spotly::duration::Duration;
use spotly::order::sort_by_start_vec;
use spotly::lyrics::Word;
use spotly::timing::{
    allocate_word_timing, fallback_word_durations, mul_div, mul_div_round, split_words, word_weight,
};

fn chars(s: &str) -> Vec<char> {
    s.chars().collect()
}

#[test]
fn exact_multiply_divide() {
    assert_eq!(mul_div(10, 3, 4), (7, 2));
    assert_eq!(mul_div_round(10, 3, 4), 8);
    assert_eq!(mul_div_round(10, 1, 4), 2);
    assert_eq!(mul_div_round(14, 1, 4), 4);
    assert_eq!(mul_div_round(10, 1, 3), 3);
    let big = u128::MAX - 1;
    assert_eq!(mul_div(big, big, big), (big, 0));
    assert_eq!(mul_div(big, 3, 7), (big / 7 * 3 + (big % 7) * 3 / 7, (big % 7) * 3 % 7));
}

#[test]
fn words_weigh_by_letters_and_pauses() {
    assert_eq!(word_weight(&chars("a")), 65);
    assert_eq!(word_weight(&chars("don't")), 105);
    assert_eq!(word_weight(&chars("know?")), 140);
    assert_eq!(word_weight(&chars("hello,")), 133);
    assert_eq!(word_weight(&chars("...")), 85);
    assert_eq!(word_weight(&chars("extraordinarily")), 205);
}

#[test]
fn words_split_at_whitespace() {
    let s = chars("  hello\u{3000}world \n");
    let words = split_words(&s, 0, s.len());
    assert_eq!(words.len(), 2);
    assert_eq!(words[0].text, chars("hello"));
    assert_eq!(words[1].text, chars("world"));
    assert_eq!(words[1].weight, 115);
}

#[test]
fn fixed_spans_stay_between_limits() {
    let s = chars("a hello, supercalifragilisticexpialidocious");
    let words = split_words(&s, 0, s.len());
    let spans = fallback_word_durations(&words);
    assert_eq!(spans[0], Duration::from_millis(143));
    assert_eq!(spans[1], Duration::from_millis(293));
    assert_eq!(spans[2], Duration::from_millis(700));
}

#[test]
fn shares_fill_the_line_less_the_reserve() {
    let s = chars("hello world");
    let words = split_words(&s, 0, s.len());
    let spans = allocate_word_timing(&words, Some(Duration::from_secs(1)));
    assert_eq!(spans, vec![Duration::from_millis(480), Duration::from_millis(480)]);

    let short = allocate_word_timing(&words, Some(Duration::from_millis(100)));
    assert_eq!(short, vec![Duration::from_millis(50), Duration::from_millis(50)]);

    let none = allocate_word_timing(&words, Some(Duration::zero()));
    assert_eq!(none, fallback_word_durations(&words));
}

#[test]
fn every_word_gets_at_least_a_millisecond() {
    let s = chars("a supercalifragilisticexpialidocious");
    let words = split_words(&s, 0, s.len());
    let spans = allocate_word_timing(&words, Some(Duration::from_millis(2)));
    // 2 ms shared 65 : 357 gives 0.308 ms, raised to 1 ms, and 1.692 ms;
    // the last gives back what the first took to fill exactly 2 ms.
    assert_eq!(spans[0], Duration::from_millis(1));
    assert_eq!(spans[1], Duration::from_millis(1));
}

#[test]
fn sorting_keeps_equal_starts_in_order() {
    let w = |t: &str, s: u64| Word {
        text: t.to_string(),
        start: Duration::from_secs(s),
    };
    let sorted = sort_by_start_vec(vec![w("c", 3), w("a1", 1), w("b", 2), w("a2", 1)]);
    let texts: Vec<&str> = sorted.iter().map(|w| w.text.as_str()).collect();
    assert_eq!(texts, vec!["a1", "a2", "b", "c"]);
}

#[test]
fn durations_saturate() {
    let max = Duration::max_value();
    assert_eq!(max.saturating_add(Duration::from_secs(1)), max);
    assert_eq!(Duration::from_secs(1).checked_sub(Duration::from_secs(2)), None);
    assert_eq!(
        Duration::from_secs(1).saturating_sub(Duration::from_secs(2)),
        Duration::zero()
    );
    assert_eq!(Duration::from_millis(1500).as_secs(), 1);
    assert_eq!(Duration::from_millis(1500).subsec_nanos(), 500_000_000);
    assert_eq!(Duration::checked_new(u64::MAX, 999_999_999), Some(max));
    assert!(Duration::checked_new(u64::MAX, 1_000_000_000).is_none());
}
