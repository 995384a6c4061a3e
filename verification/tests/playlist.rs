use hifzr::api::{chapter_query, verses_by_chapter_url};
use hifzr::hifz::{
    join_path, per_surah_base, playlist_file_name, playlist_lines, pointer_file_name,
    silence_file_name,
};

#[test]
fn silence_clip_is_named_for_its_duration() {
    assert_eq!(silence_file_name(1000), ".silence_1000ms.mp3");
    assert_eq!(silence_file_name(250), ".silence_250ms.mp3");
}

#[test]
fn playlist_files_have_stable_names() {
    assert_eq!(playlist_file_name(), "hifz_ayah.m3u");
    assert_eq!(pointer_file_name(), "latest_playlist.txt");
}

#[test]
fn join_path_inserts_one_separator() {
    assert_eq!(join_path("/tmp/q", "001.mp3"), "/tmp/q/001.mp3");
    assert_eq!(join_path("/tmp/q/", "001.mp3"), "/tmp/q/001.mp3");
    assert_eq!(join_path("", "001.mp3"), "001.mp3");
}

#[test]
fn per_surah_base_nests_both_slugs() {
    assert_eq!(per_surah_base("/m", "al-fatihah-001", "x"), "/m/al-fatihah-001/x");
}

#[test]
fn ordering_with_audible_gap() {
    let sil = Some("/d/.silence_1000ms.mp3".to_string());
    let (lines, skipped) = playlist_lines("/d", &vec![1, 2], &vec![true, true], 2, 1000, &sil);
    assert_eq!(
        lines,
        vec![
            "#EXTM3U",
            "/d/001.mp3",
            "/d/.silence_1000ms.mp3",
            "/d/001.mp3",
            "/d/.silence_1000ms.mp3",
            "/d/002.mp3",
            "/d/.silence_1000ms.mp3",
            "/d/002.mp3",
            "/d/.silence_1000ms.mp3",
        ]
    );
    assert!(skipped.is_empty());
}

#[test]
fn short_gap_suppresses_silence() {
    let sil = Some("/d/.silence_200ms.mp3".to_string());
    let (lines, _) = playlist_lines("/d", &vec![1, 2], &vec![true, true], 2, 200, &sil);
    assert_eq!(
        lines,
        vec!["#EXTM3U", "/d/001.mp3", "/d/001.mp3", "/d/002.mp3", "/d/002.mp3"]
    );
}

#[test]
fn missing_clip_means_no_silence_lines() {
    let (lines, _) = playlist_lines("/d", &vec![1], &vec![true], 3, 1000, &None);
    assert_eq!(lines, vec!["#EXTM3U", "/d/001.mp3", "/d/001.mp3", "/d/001.mp3"]);
}

#[test]
fn absent_verse_is_skipped_with_a_warning_entry() {
    let sil = Some("/d/.silence_1000ms.mp3".to_string());
    let (lines, skipped) = playlist_lines("/d", &vec![1, 2], &vec![true, false], 2, 1000, &sil);
    assert_eq!(
        lines,
        vec![
            "#EXTM3U",
            "/d/001.mp3",
            "/d/.silence_1000ms.mp3",
            "/d/001.mp3",
            "/d/.silence_1000ms.mp3",
        ]
    );
    assert_eq!(skipped, vec![2]);
}

#[test]
fn zero_repeats_emit_no_audio_lines() {
    let (lines, _) = playlist_lines("/d", &vec![1], &vec![true], 0, 0, &None);
    assert_eq!(lines, vec!["#EXTM3U"]);
}

#[test]
fn chapter_url_embeds_the_chapter_number() {
    assert_eq!(
        verses_by_chapter_url(114),
        "https://api.quran.com/api/v4/verses/by_chapter/114"
    );
}

#[test]
fn chapter_query_uses_fixed_projection() {
    let q = chapter_query(7, 3);
    assert_eq!(q.audio, 7);
    assert_eq!(q.page, Some(3));
    assert_eq!(q.per_page, Some(50));
    assert_eq!(q.words, Some(false));
    assert_eq!(
        q.fields.as_deref(),
        Some("juz_number,hizb_number,verse_key,verse_number,rub_el_hizb_number")
    );
}
