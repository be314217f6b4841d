use batcher::batcher::{BatchedOp, Resolution, WrappedOp};
use batcher::utils::parallel_reduce;

struct Word(&'static str);

impl BatchedOp for Word {
    type Res = usize;
}

fn words(texts: &[&'static str]) -> Vec<WrappedOp<Word, usize>> {
    let mut batch = Vec::new();
    for (i, text) in texts.iter().enumerate() {
        batch.push(WrappedOp(Word(*text), i));
    }
    batch
}

fn length_and_text(word: Word) -> (usize, String) {
    (word.0.len(), word.0.to_string())
}

fn concat(left: String, right: String) -> String {
    left + &right
}

fn pairs(resolutions: Vec<Resolution<Word, usize>>) -> Vec<(usize, usize)> {
    resolutions.into_iter().map(|r| (r.callback, r.result)).collect()
}

#[test]
fn empty_batch_has_no_aggregate_and_no_resolution() {
    let (total, resolutions) = parallel_reduce(words(&[]), concat, length_and_text);
    assert_eq!(total, None);
    assert!(resolutions.is_empty());
}

#[test]
fn single_operation_is_its_own_aggregate() {
    let (total, resolutions) = parallel_reduce(words(&["alone"]), concat, length_and_text);
    assert_eq!(total, Some("alone".to_string()));
    assert_eq!(pairs(resolutions), vec![(0, 5)]);
}

#[test]
fn contributions_are_combined_in_the_order_of_the_batch() {
    let texts = ["a", "bc", "def", "g", "hi", "jkl", "m"];
    let (total, resolutions) = parallel_reduce(words(&texts), concat, length_and_text);
    assert_eq!(total, Some("abcdefghijklm".to_string()));
    assert_eq!(
        pairs(resolutions),
        vec![(0, 1), (1, 2), (2, 3), (3, 1), (4, 2), (5, 3), (6, 1)]
    );
}

#[test]
fn every_callback_is_paired_with_the_result_of_its_own_operation() {
    for n in 0..40usize {
        let texts: Vec<&'static str> = (0..n).map(|i| ["x", "yy", "zzz"][i % 3]).collect();
        let (total, resolutions) = parallel_reduce(words(&texts), concat, length_and_text);
        let expected: String = texts.concat();
        assert_eq!(total.unwrap_or_default(), expected);
        let got = pairs(resolutions);
        assert_eq!(got.len(), n);
        for (i, (callback, result)) in got.into_iter().enumerate() {
            assert_eq!(callback, i);
            assert_eq!(result, (i % 3) + 1);
        }
    }
}

struct Amount(u64);

impl BatchedOp for Amount {
    type Res = ();
}

#[test]
fn aggregate_of_sums_is_the_sum() {
    let mut batch = Vec::new();
    for i in 1..=100u64 {
        batch.push(WrappedOp(Amount(i), ()));
    }
    let (total, resolutions) =
        parallel_reduce(batch, |l: u64, r: u64| l + r, |a: Amount| ((), a.0));
    assert_eq!(total, Some(5050));
    assert_eq!(resolutions.len(), 100);
}

#[test]
fn projection_sees_the_same_snapshot_for_every_operation() {
    let snapshot = 17u64;
    let mut batch = Vec::new();
    for i in 0..9u64 {
        batch.push(WrappedOp(Amount(i), i));
    }
    let (total, resolutions) = parallel_reduce(
        batch,
        |l: u64, r: u64| l.max(r),
        |a: Amount| ((), snapshot + a.0),
    );
    assert_eq!(total, Some(25));
    let callbacks: Vec<u64> = resolutions.into_iter().map(|r| r.callback).collect();
    assert_eq!(callbacks, vec![0, 1, 2, 3, 4, 5, 6, 7, 8]);
}
