use phonikud_rs::model::{can_reconstruct, reconstruct_diacritics, remove_nikud, Predictions};

fn preds(nikud: Vec<usize>, shin: Vec<usize>) -> Predictions {
    let n = nikud.len();
    Predictions { nikud, shin, stress: vec![false; n], vocal_shva: vec![false; n], prefix: vec![false; n] }
}

#[test]
fn remove_nikud_strips_marks() {
    assert_eq!(remove_nikud("שָׁלוֹם|עוֹלָם"), "שלוםעולם");
    assert_eq!(remove_nikud("abc"), "abc");
}

#[test]
fn reconstruct_adds_marks_to_letters() {
    // [CLS] ש ל ו ם [SEP]: shin with a shin dot and qamats, lamed with holam,
    // vav as mater lectionis with a mark, final mem without nikud.
    let text = "שלום";
    let offsets = vec![(0, 0), (0, 2), (2, 4), (4, 6), (6, 8), (0, 0)];
    let p = preds(vec![0, 11, 12, 1, 0, 0], vec![0, 0, 0, 0, 0, 0]);
    assert!(can_reconstruct(text, &offsets, &p));
    let r = reconstruct_diacritics(text, &offsets, &p, Some("\u{05af}"));
    assert_eq!(r, "ש\u{05c1}\u{05b8}ל\u{05b9}ו\u{05af}ם");
    let without_mark = reconstruct_diacritics(text, &offsets, &p, None);
    assert_eq!(without_mark, "ש\u{05c1}\u{05b8}ל\u{05b9}ום");
    assert_eq!(remove_nikud(&r), text);
}

#[test]
fn reconstruct_keeps_skipped_and_long_tokens() {
    let text = "ab שלום";
    let offsets = vec![(0, 2), (3, 5)];
    let mut p = preds(vec![0, 3], vec![0, 1]);
    p.stress[1] = true;
    let r = reconstruct_diacritics(text, &offsets, &p, None);
    assert_eq!(r, "ab ש\u{05c2}\u{05b0}\u{05ab}לום");
}

#[test]
fn reconstruct_refuses_bad_offsets_and_classes() {
    let text = "שלום";
    assert!(!can_reconstruct(text, &vec![(0, 1)], &preds(vec![0], vec![0])));
    assert!(!can_reconstruct(text, &vec![(0, 20)], &preds(vec![0], vec![0])));
    assert!(!can_reconstruct(text, &vec![(0, 2)], &preds(vec![29], vec![0])));
    assert!(!can_reconstruct(text, &vec![(0, 2)], &preds(vec![0], vec![2])));
    assert!(can_reconstruct(text, &vec![(2, 4)], &preds(vec![0], vec![2])));
}
