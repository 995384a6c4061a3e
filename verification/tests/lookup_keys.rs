use hifzr::lookup::{
    chapter_slug, norm_key, resolve_chapter, resolve_reciter, slugify, Chapter, Reciter,
};

fn chapters() -> Vec<Chapter> {
    vec![
        Chapter {
            id: 1,
            name_simple: "Al-Fatihah".to_string(),
            name_complex: "Al-Fātiĥah".to_string(),
        },
        Chapter {
            id: 2,
            name_simple: "Al-Baqarah".to_string(),
            name_complex: "Al-Baqarah".to_string(),
        },
    ]
}

fn reciters() -> Vec<Reciter> {
    vec![
        Reciter {
            id: 7,
            reciter_name: "Mishari Rashid al-`Afasy".to_string(),
            style: None,
        },
        Reciter {
            id: 2,
            reciter_name: "AbdulBaset AbdulSamad".to_string(),
            style: Some("Murattal".to_string()),
        },
    ]
}

#[test]
fn norm_key_keeps_lowercased_alphanumerics() {
    assert_eq!(norm_key("Al-Fatihah"), "alfatihah");
    assert_eq!(norm_key("  Al  Baqarah!!"), "albaqarah");
    assert_eq!(norm_key(""), "");
}

#[test]
fn norm_key_folds_decomposable_letters() {
    assert_eq!(norm_key("Al-Fātiĥah"), "alfatihah");
}

#[test]
fn slugify_collapses_runs_and_trims_dashes() {
    assert_eq!(slugify("Al-Fatihah"), "al-fatihah");
    assert_eq!(slugify("  An   Nas  "), "an-nas");
    assert_eq!(slugify("Al-Fātiĥah"), "al-fa-tih-ah");
}

#[test]
fn chapter_slug_appends_padded_id() {
    let c = &chapters()[0];
    assert_eq!(chapter_slug(c), "al-fatihah-001");
}

#[test]
fn chapter_resolves_by_number_or_name() {
    let cs = chapters();
    assert_eq!(resolve_chapter(&cs, "2").unwrap().id, 2);
    assert_eq!(resolve_chapter(&cs, "al fatihah").unwrap().id, 1);
    assert_eq!(resolve_chapter(&cs, "Al-Fātiĥah").unwrap().id, 1);
    assert!(resolve_chapter(&cs, "nope").is_none());
    assert!(resolve_chapter(&cs, "3").is_none());
}

#[test]
fn reciter_resolves_by_number_name_or_style() {
    let rs = reciters();
    assert_eq!(resolve_reciter(&rs, "7").unwrap().id, 7);
    assert_eq!(resolve_reciter(&rs, "afasy").unwrap().id, 7);
    assert_eq!(resolve_reciter(&rs, "murattal").unwrap().id, 2);
    assert!(resolve_reciter(&rs, "unknown someone").is_none());
}

#[test]
fn reciter_match_works_in_both_directions() {
    let rs = reciters();
    let long = "the great Mishari Rashid al-`Afasy recording";
    assert_eq!(resolve_reciter(&rs, long).unwrap().id, 7);
}
