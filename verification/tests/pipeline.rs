use sentence::corpus::{extract_chinese_runs, keep_archive_entry};
use sentence::distance::levenshtein_distance;
use sentence::encoder::encode_sentence;
use sentence::lookup::build_lookup;
use sentence::repertoire::{build_frequency, get_gb2312, RepertoireEntry};
use sentence::scorer::{accumulate, classify, code_lengths, segmentation_correct, Classification};
use sentence::stats::{new_statistics, reduce, Statistics};
use sentence::table::{arrange_short_code, generate_tables, Mode};
use std::collections::HashMap;

fn chars(s: &str) -> Vec<char> {
    s.chars().collect()
}

fn code(s: &str) -> Vec<char> {
    s.chars().collect()
}

fn lookup_from(pairs: &[(char, &str)]) -> HashMap<u32, Vec<char>> {
    let table: Vec<(char, Vec<char>)> = pairs.iter().map(|(c, s)| (*c, code(s))).collect();
    build_lookup(&table)
}

#[test]
fn levenshtein_known_values() {
    assert_eq!(levenshtein_distance(&chars("kitten"), &chars("sitting")), 3);
    assert_eq!(levenshtein_distance(&chars("flaw"), &chars("lawn")), 2);
    assert_eq!(levenshtein_distance(&chars(""), &chars("abc")), 3);
    assert_eq!(levenshtein_distance(&chars("abc"), &chars("")), 3);
    assert_eq!(levenshtein_distance(&chars(""), &chars("")), 0);
}

#[test]
fn levenshtein_distance_of_a_sequence_to_itself_is_zero() {
    for s in ["", "a", "你好世界", "abcabc"] {
        assert_eq!(levenshtein_distance(&chars(s), &chars(s)), 0);
    }
}

#[test]
fn levenshtein_is_symmetric() {
    let cases = [("kitten", "sitting"), ("你好", "你坏"), ("", "xy"), ("abc", "acb")];
    for (a, b) in cases {
        assert_eq!(
            levenshtein_distance(&chars(a), &chars(b)),
            levenshtein_distance(&chars(b), &chars(a))
        );
    }
}

#[test]
fn levenshtein_at_least_length_difference() {
    let cases = [("kitten", "sitting"), ("你好", ""), ("a", "abcd")];
    for (a, b) in cases {
        let d = levenshtein_distance(&chars(a), &chars(b));
        let la = a.chars().count() as i64;
        let lb = b.chars().count() as i64;
        assert!(d as i64 >= (la - lb).abs());
    }
}

#[test]
fn encode_simple_sentence() {
    let lookup = lookup_from(&[('习', "ab"), ('字', "cd")]);
    let encoded = encode_sentence(&chars("习字"), &lookup);
    assert_eq!(encoded, Some(code("abcd")));
}

#[test]
fn encode_rejects_sentence_longer_than_twenty_characters() {
    let lookup = lookup_from(&[('a', "xy")]);
    let short: Vec<char> = vec!['a'; 20];
    let long: Vec<char> = vec!['a'; 21];
    assert!(encode_sentence(&short, &lookup).is_some());
    assert_eq!(encode_sentence(&long, &lookup), None);
}

#[test]
fn encode_rejects_unknown_character() {
    let lookup = lookup_from(&[('习', "ab")]);
    assert_eq!(encode_sentence(&chars("习字"), &lookup), None);
}

#[test]
fn encode_rejects_code_stream_over_ninety_nine_characters() {
    let lookup = lookup_from(&[('a', "vwxyz")]);
    let nineteen: Vec<char> = vec!['a'; 19];
    let twenty: Vec<char> = vec!['a'; 20];
    // 19 x 5 = 95 fits; 20 x 5 = 100 does not.
    assert_eq!(encode_sentence(&nineteen, &lookup).map(|c| c.len()), Some(95));
    assert_eq!(encode_sentence(&twenty, &lookup), None);
}

#[test]
fn scored_exact_decode_is_a_success() {
    let lookup = lookup_from(&[('习', "ab"), ('字', "cd")]);
    let reference = chars("习字");
    let decoded = chars("习字");
    let ref_seg = code_lengths(&reference, &lookup);
    let dec_seg = code_lengths(&decoded, &lookup);
    assert_eq!(ref_seg, vec![2, 2]);
    assert_eq!(dec_seg, vec![2, 2]);
    assert!(segmentation_correct(&dec_seg, &ref_seg));
    assert_eq!(levenshtein_distance(&decoded, &reference), 0);
    let mut stats = new_statistics();
    let outcome = accumulate(&mut stats, &decoded, &reference, &lookup);
    assert_eq!(outcome, Classification::Success);
    assert_eq!(stats[0].sentences, 1);
    assert_eq!(stats[0].characters, 2);
    assert_eq!(stats[0].distances, 0);
    assert_eq!(stats[0].successes, 1);
    assert_eq!(stats[2].successes, 1);
    assert_eq!(stats[1].sentences, 0);
    assert_eq!(stats[3].sentences, 0);
}

#[test]
fn scored_same_segmentation_wrong_character_is_a_translation_error() {
    let lookup = lookup_from(&[('你', "abc"), ('好', "def"), ('坏', "ghi")]);
    let reference = chars("你好");
    let decoded = chars("你坏");
    let ref_seg = code_lengths(&reference, &lookup);
    let dec_seg = code_lengths(&decoded, &lookup);
    assert_eq!(ref_seg, vec![3, 3]);
    assert_eq!(dec_seg, vec![3, 3]);
    assert_eq!(levenshtein_distance(&decoded, &reference), 1);
    let mut stats = new_statistics();
    let outcome = accumulate(&mut stats, &decoded, &reference, &lookup);
    assert_eq!(outcome, Classification::TranslationError);
    assert_eq!(stats[0].translation_errors, 1);
    assert_eq!(stats[2].translation_errors, 1);
    assert_eq!(stats[0].successes, 0);
    assert_eq!(stats[0].segmentation_errors, 0);
    assert_eq!(stats[0].distances, 1);
}

#[test]
fn scored_different_segmentation_is_a_segmentation_error() {
    // Reference of two 3-letter codes, decoded as three 2-letter codes.
    let lookup = lookup_from(&[('你', "abc"), ('好', "def"), ('习', "ab"), ('字', "cd"), ('书', "ef")]);
    let reference = chars("你好");
    let decoded = chars("习字书");
    let ref_seg = code_lengths(&reference, &lookup);
    let dec_seg = code_lengths(&decoded, &lookup);
    assert_eq!(ref_seg, vec![3, 3]);
    assert_eq!(dec_seg, vec![2, 2, 2]);
    assert!(!segmentation_correct(&dec_seg, &ref_seg));
    let mut stats = new_statistics();
    let outcome = accumulate(&mut stats, &decoded, &reference, &lookup);
    assert_eq!(outcome, Classification::SegmentationError);
    assert_eq!(stats[0].segmentation_errors, 1);
    assert_eq!(stats[2].segmentation_errors, 1);
    assert_eq!(stats[0].successes, 0);
    assert_eq!(stats[0].translation_errors, 0);
}

#[test]
fn classification_picks_exactly_one_outcome() {
    assert_eq!(classify(0, true), Classification::Success);
    assert_eq!(classify(0, false), Classification::Success);
    assert_eq!(classify(1, true), Classification::TranslationError);
    assert_eq!(classify(1, false), Classification::SegmentationError);
}

fn run_with_bucket0_sentences(n: usize) -> Vec<Statistics> {
    let mut run = new_statistics();
    run[0].sentences = n;
    run
}

#[test]
fn reducer_adds_three_shards() {
    let shards = vec![
        run_with_bucket0_sentences(10),
        run_with_bucket0_sentences(20),
        run_with_bucket0_sentences(30),
    ];
    let total = reduce(&shards).expect("three well-shaped shards merge");
    assert_eq!(total.len(), 30);
    assert_eq!(total[0].sentences, 60);
    assert_eq!(total[0].length, 0);
    for (i, bucket) in total.iter().enumerate() {
        assert_eq!(bucket.length, i);
    }
    assert_eq!(total[1].sentences, 0);
}

#[test]
fn reducer_is_commutative_on_two_runs() {
    let mut a = new_statistics();
    a[0].sentences = 3;
    a[5].distances = 7;
    let mut b = new_statistics();
    b[0].sentences = 4;
    b[5].successes = 2;
    let ab = reduce(&vec![a.clone(), b.clone()]).unwrap();
    let ba = reduce(&vec![b, a]).unwrap();
    assert_eq!(ab, ba);
}

#[test]
fn reducer_rejects_wrong_bucket_count() {
    let good = new_statistics();
    let mut bad = new_statistics();
    bad.pop();
    assert_eq!(reduce(&vec![good, bad]), None);
}

#[test]
fn reducer_rejects_counter_overflow() {
    let a = run_with_bucket0_sentences(usize::MAX);
    let b = run_with_bucket0_sentences(1);
    assert_eq!(reduce(&vec![a, b]), None);
}

#[test]
fn reducer_of_nothing_is_all_zero_buckets() {
    let total = reduce(&Vec::new()).unwrap();
    assert_eq!(total.len(), 30);
    for (i, bucket) in total.iter().enumerate() {
        assert_eq!(bucket.length, i);
        assert_eq!(bucket.sentences, 0);
        assert_eq!(bucket.characters, 0);
        assert_eq!(bucket.distances, 0);
        assert_eq!(bucket.successes, 0);
        assert_eq!(bucket.translation_errors, 0);
        assert_eq!(bucket.segmentation_errors, 0);
    }
}

#[test]
fn arrange_short_code_trims_the_first_claimant_of_each_prefix() {
    let full: Vec<(char, Vec<char>)> =
        vec![('丙', code("abz")), ('甲', code("abc")), ('乙', code("xyz"))];
    let mut frequency: HashMap<u32, u64> = HashMap::new();
    frequency.insert('甲' as u32, 100);
    frequency.insert('乙' as u32, 50);
    // '丙' has no recorded frequency and sorts last.
    let short = arrange_short_code(&full, &frequency);
    assert_eq!(
        short,
        vec![('甲', code("ab")), ('乙', code("xy")), ('丙', code("abz"))]
    );
}

#[test]
fn arrange_short_code_keeps_length_and_characters() {
    let full: Vec<(char, Vec<char>)> = vec![
        ('一', code("aaa")),
        ('二', code("aab")),
        ('三', code("aba")),
        ('四', code("abb")),
    ];
    let frequency: HashMap<u32, u64> = HashMap::new();
    let short = arrange_short_code(&full, &frequency);
    assert_eq!(short.len(), full.len());
    let mut input_chars: Vec<char> = full.iter().map(|p| p.0).collect();
    let mut output_chars: Vec<char> = short.iter().map(|p| p.0).collect();
    input_chars.sort();
    output_chars.sort();
    assert_eq!(input_chars, output_chars);
    for (_, c) in &short {
        assert!(c.len() == 2 || c.len() == 3);
    }
}

#[test]
fn two_letter_codes_have_distinct_prefixes() {
    let full: Vec<(char, Vec<char>)> = vec![
        ('一', code("aaa")),
        ('二', code("aab")),
        ('三', code("aba")),
        ('四', code("abb")),
        ('五', code("aac")),
    ];
    let frequency: HashMap<u32, u64> = HashMap::new();
    let short = arrange_short_code(&full, &frequency);
    let two_letter: Vec<&Vec<char>> =
        short.iter().map(|p| &p.1).filter(|c| c.len() == 2).collect();
    for i in 0..two_letter.len() {
        for j in 0..two_letter.len() {
            if i != j {
                assert_ne!(two_letter[i], two_letter[j]);
            }
        }
    }
}

#[test]
fn generated_table_covers_the_repertoire() {
    let repertoire = chars("一二三四五六七八九十");
    let frequency: HashMap<u32, u64> = HashMap::new();
    for mode in [Mode::PatternFree, Mode::Ermading] {
        let table = generate_tables(&repertoire, &frequency, &mode);
        assert_eq!(table.len(), repertoire.len());
        let mut table_chars: Vec<char> = table.iter().map(|p| p.0).collect();
        let mut expected = repertoire.clone();
        table_chars.sort();
        expected.sort();
        assert_eq!(table_chars, expected);
        for (_, c) in &table {
            assert!(c.len() == 2 || c.len() == 3);
            for ch in c {
                assert!(('a'..='z').contains(ch));
            }
        }
    }
}

#[test]
fn structured_mode_draws_a_late_first_letter() {
    let repertoire = chars("一二三四五六七八九十");
    let frequency: HashMap<u32, u64> = HashMap::new();
    let table = generate_tables(&repertoire, &frequency, &Mode::Ermading);
    for (_, c) in &table {
        assert!(('i'..='z').contains(&c[0]));
    }
}

#[test]
fn repertoire_keeps_only_flagged_characters() {
    let entries = vec![
        RepertoireEntry { unicode: '习' as u32, gb2312: true },
        RepertoireEntry { unicode: 'A' as u32, gb2312: false },
        RepertoireEntry { unicode: '字' as u32, gb2312: true },
    ];
    assert_eq!(get_gb2312(&entries), vec!['习', '字']);
}

#[test]
fn frequency_sums_word_weights_per_character() {
    let words: Vec<(Vec<char>, u64)> =
        vec![(chars("习字"), 2), (chars("字"), 3), (chars("习习"), 1)];
    let freq = build_frequency(&words).expect("weights fit");
    assert_eq!(freq.get(&('习' as u32)), Some(&4));
    assert_eq!(freq.get(&('字' as u32)), Some(&5));
    assert_eq!(freq.get(&('书' as u32)), None);
}

#[test]
fn frequency_rejects_weights_past_the_range() {
    let words: Vec<(Vec<char>, u64)> = vec![(chars("习"), u64::MAX), (chars("习"), 1)];
    assert!(build_frequency(&words).is_none());
}

#[test]
fn chinese_runs_are_maximal_and_in_order() {
    let runs = extract_chinese_runs(&chars("ab你好, cd世界x"));
    assert_eq!(runs, vec![chars("你好"), chars("世界")]);
    assert_eq!(extract_chinese_runs(&chars("你好")), vec![chars("你好")]);
    assert_eq!(extract_chinese_runs(&chars("abc")), Vec::<Vec<char>>::new());
    assert_eq!(extract_chinese_runs(&chars("")), Vec::<Vec<char>>::new());
}

#[test]
fn archive_entries_are_text_files_but_not_metadata() {
    assert!(keep_archive_entry(&chars("novel-1.txt")));
    assert!(keep_archive_entry(&chars(".txt")));
    assert!(!keep_archive_entry(&chars("meta.txt")));
    assert!(!keep_archive_entry(&chars("novel_meta.txt")));
    assert!(!keep_archive_entry(&chars("cover.png")));
    assert!(!keep_archive_entry(&chars("txt")));
}

#[test]
fn default_bucket_is_zeroed() {
    let b = Statistics::default();
    assert_eq!(b.length, 0);
    assert_eq!(b.sentences, 0);
    assert_eq!(b.characters, 0);
    assert_eq!(b.distances, 0);
    assert_eq!(b.successes, 0);
    assert_eq!(b.translation_errors, 0);
    assert_eq!(b.segmentation_errors, 0);
}
