use savegame_analysis::rescore::matching_scorer::MatchingScorer;
use savegame_analysis::rescore::naive_scorer::NaiveScorer;
use savegame_analysis::rescore::{rescore, ScoringSystem};
use savegame_analysis::wife::{wife3, Wife3};

fn columns(col0_notes: Vec<i64>, col0_hits: Vec<i64>) -> (Vec<Vec<i64>>, Vec<Vec<i64>>) {
    let notes = vec![col0_notes, Vec::new(), Vec::new(), Vec::new()];
    let hits = vec![col0_hits, Vec::new(), Vec::new(), Vec::new()];
    (notes, hits)
}

#[test]
fn test_rescore() {
    let (notes, hits) = columns(
        vec![0, 100_000, 200_000, 300_000, 400_000, 500_000],
        vec![0, 70_000, 110_000, 240_000, 320_000, 500_000],
    );
    let r = rescore::<NaiveScorer, Wife3>(&notes, &hits, 0, 0);
    assert_eq!(r.den, 6);
    // The displacement cascade strands the 70 ms hit as a stray here, so
    // one fewer note is judged than under first-fit.
    let r = rescore::<MatchingScorer, Wife3>(&notes, &hits, 0, 0);
    assert_eq!(r.den, 5);
}

#[test]
fn test_rescore_idempotent() {
    // Re-running on identical arrays yields identical output: the result is
    // a function of the inputs alone.
    let (notes, hits) = columns(
        vec![0, 100_000, 200_000, 300_000],
        vec![10_000, 90_000, 350_000],
    );
    let a = rescore::<MatchingScorer, Wife3>(&notes, &hits, 1, 2);
    let b = rescore::<MatchingScorer, Wife3>(&notes, &hits, 1, 2);
    assert_eq!(a, b);
    let a = rescore::<NaiveScorer, Wife3>(&notes, &hits, 1, 2);
    let b = rescore::<NaiveScorer, Wife3>(&notes, &hits, 1, 2);
    assert_eq!(a, b);
}

#[test]
fn test_matching_displacement() {
    // One note, two hits: the second hit fits better and displaces the
    // first, which becomes a stray tap.
    let (notes, hits) = columns(vec![0], vec![50_000, 10_000]);
    let r = rescore::<MatchingScorer, Wife3>(&notes, &hits, 0, 0);
    assert_eq!(r.den, 1);
    assert_eq!(r.num, wife3(10_000) as i128 - 2_750_000);
    // The first-fit baseline lets the early claim stand and ignores the
    // better hit.
    let r = rescore::<NaiveScorer, Wife3>(&notes, &hits, 0, 0);
    assert_eq!(r.den, 1);
    assert_eq!(r.num, wife3(50_000) as i128);
}

#[test]
fn test_matching_misses_and_strays() {
    // A hit with no note within 180 ms is a stray, a note with no hit is a
    // miss.
    let (notes, hits) = columns(vec![0, 5_000_000], vec![1_000_000]);
    let r = rescore::<MatchingScorer, Wife3>(&notes, &hits, 0, 0);
    // No note claimed: two misses and one stray.
    assert_eq!(r.den, 0);
    assert_eq!(r.num, 2 * -2_750_000 + -2_750_000);
}

#[test]
fn test_column_evaluate_direct() {
    let notes = vec![0i64, 100_000];
    let hits = vec![2_000i64];
    let r = <MatchingScorer as ScoringSystem<Wife3>>::evaluate(&notes, &hits);
    assert_eq!(r.num_judged_notes, 1);
    assert_eq!(r.wifescore_sum, wife3(2_000) as i128 + -2_750_000);
}
