use spell_check::bloom_filter::BloomFilter;

fn filter_for(items_count: u32, fp_prob: f32) -> BloomFilter {
    let size = (-(items_count as f32) * fp_prob.ln() / (2f32.ln() * 2f32.ln())).ceil() as u64;
    let hash_count = ((size as f32) * 2f32.ln() / (items_count as f32)).ceil() as u32;
    BloomFilter::from_params(size, hash_count, fp_prob.to_bits())
}

#[test]
fn test_fp_prob() {
    let fp_prob = 0.01;
    let mut bf = filter_for(20, fp_prob);
    let word_present = [
        "A", "quick", "brown", "Fox", "jUmps", "over", "A", "lazy", "DOG",
    ];

    let word_absent = ["hello", "good", "what", "noooo", "truly", "never"];

    for word in word_present.iter() {
        bf.insert(word);
    }

    let test = [
        "good", "Fox", "over", "truly", "brown", "never", "what", "quick",
    ];

    for w in word_present.iter() {
        assert_eq!(bf.lookup(w), true);
    }

    let (mut true_pos, mut true_neg, mut false_pos) = (0, 0, 0);

    for w in test.iter() {
        if bf.lookup(w) {
            if word_present.contains(w) {
                true_pos += 1;
            } else if word_absent.contains(w) {
                false_pos += 1;
            }
        } else {
            true_neg += 1;
        }
    }

    assert_eq!(true_pos + true_neg + false_pos, test.len());
    assert!((false_pos as f32 / true_neg as f32) <= fp_prob);
}

#[test]
fn test_from_vector() {
    let word_present = vec![
        "A", "quick", "brown", "Fox", "jUmps", "over", "A", "lazy", "DOG",
    ]
    .into_iter()
    .map(String::from)
    .collect::<Vec<String>>();

    let word_absent = ["hello", "good", "what", "noooo", "truly", "never"];

    let mut bf = filter_for(word_present.len() as u32, 0.01);
    for word in word_present.iter() {
        bf.insert(word.as_str());
    }

    let test = [
        "good", "Fox", "over", "truly", "brown", "never", "what", "quick",
    ];

    let (mut true_pos, mut true_neg, mut false_pos) = (0, 0, 0);

    for w in test.into_iter() {
        if bf.lookup(w) {
            if word_present.contains(&w.to_string()) {
                true_pos += 1;
            } else if word_absent.contains(&w) {
                false_pos += 1;
            }
        } else {
            true_neg += 1;
        }
    }

    assert_eq!(true_pos + true_neg + false_pos, test.len());
    assert!((false_pos as f32 / true_neg as f32) <= 0.01);
}
