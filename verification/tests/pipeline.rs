use hifzr::api::{classify_status, collect_page, FetchError, RetryStep};
use hifzr::download::{
    audio_file_name, filter_segments, plan_verse, resolve_audio_url, segments_json,
    sidecar_file_name,
};
use hifzr::models::{Audio, ChapterResponse, Pagination, Segment, Verse};

fn verse(n: u32, url: &str, segments: Option<Vec<Segment>>) -> Verse {
    Verse {
        id: n,
        verse_number: n,
        verse_key: format!("1:{}", n),
        hizb_number: None,
        rub_el_hizb_number: None,
        ruku_number: None,
        manzil_number: None,
        sajdah_number: None,
        page_number: None,
        juz_number: Some(1),
        audio: Audio { url: url.to_string(), segments },
    }
}

#[test]
fn backoff_doubles_from_250ms() {
    for (tries, want) in [(0u32, 250u64), (1, 500), (2, 1000), (3, 2000), (4, 4000)] {
        match classify_status(429, tries) {
            RetryStep::Backoff { delay_ms } => assert_eq!(delay_ms, want),
            _ => panic!("expected a backoff for retry {}", tries),
        }
    }
}

#[test]
fn rate_limit_budget_is_five() {
    assert!(matches!(
        classify_status(429, 5),
        RetryStep::Fail(FetchError::RateLimited)
    ));
    assert!(matches!(
        classify_status(429, 6),
        RetryStep::Fail(FetchError::RateLimited)
    ));
}

#[test]
fn non_success_fails_at_once() {
    assert!(matches!(
        classify_status(500, 0),
        RetryStep::Fail(FetchError::Upstream { status: 500 })
    ));
    assert!(matches!(
        classify_status(404, 0),
        RetryStep::Fail(FetchError::Upstream { status: 404 })
    ));
}

#[test]
fn success_is_accepted() {
    assert!(matches!(classify_status(200, 0), RetryStep::Accept));
    assert!(matches!(classify_status(204, 4), RetryStep::Accept));
}

#[test]
fn empty_page_stops_even_with_next_page() {
    let mut acc = Vec::new();
    let page = ChapterResponse {
        verses: vec![],
        pagination: Some(Pagination {
            per_page: Some(50),
            current_page: Some(1),
            next_page: Some(2),
            total_pages: Some(3),
            total_records: Some(120),
        }),
    };
    assert_eq!(collect_page(&mut acc, page), None);
    assert!(acc.is_empty());
}

#[test]
fn missing_next_page_stops_after_collecting() {
    let mut acc = Vec::new();
    let page = ChapterResponse {
        verses: vec![verse(1, "a.mp3", None), verse(2, "b.mp3", None)],
        pagination: Some(Pagination {
            per_page: Some(50),
            current_page: Some(1),
            next_page: None,
            total_pages: Some(1),
            total_records: Some(2),
        }),
    };
    assert_eq!(collect_page(&mut acc, page), None);
    assert_eq!(acc.len(), 2);
    assert_eq!(acc[1].verse_number, 2);
}

#[test]
fn present_next_page_continues() {
    let mut acc = Vec::new();
    let page = ChapterResponse {
        verses: vec![verse(1, "a.mp3", None)],
        pagination: Some(Pagination {
            per_page: Some(50),
            current_page: Some(1),
            next_page: Some(2),
            total_pages: Some(2),
            total_records: Some(51),
        }),
    };
    assert_eq!(collect_page(&mut acc, page), Some(2));
    assert_eq!(acc.len(), 1);
}

#[test]
fn zero_length_segment_is_dropped_and_real_one_kept() {
    let segs = vec![
        Segment { i: None, j: None, start_ms: 100, end_ms: 100 },
        Segment { i: Some(1), j: Some(2), start_ms: 100, end_ms: 250 },
        Segment { i: None, j: None, start_ms: 300, end_ms: 200 },
    ];
    assert_eq!(filter_segments(&segs), vec![(100, 250)]);
}

#[test]
fn sidecar_json_is_compact_pairs() {
    assert_eq!(segments_json(&vec![(100, 250)]), "[[100,250]]");
    assert_eq!(segments_json(&vec![(100, 250), (300, 400)]), "[[100,250],[300,400]]");
    assert_eq!(segments_json(&vec![]), "[]");
}

#[test]
fn relative_urls_gain_the_cdn_root() {
    assert_eq!(
        resolve_audio_url("AbdulBaset/mp3/001001.mp3"),
        "https://audio.qurancdn.com/AbdulBaset/mp3/001001.mp3"
    );
    assert_eq!(
        resolve_audio_url("//host/x.mp3"),
        "https://audio.qurancdn.com/host/x.mp3"
    );
    assert_eq!(
        resolve_audio_url("https://x.test/a.mp3"),
        "https://x.test/a.mp3"
    );
    assert_eq!(resolve_audio_url("http://x.test/a.mp3"), "http://x.test/a.mp3");
}

#[test]
fn verse_file_names_are_zero_padded() {
    assert_eq!(audio_file_name(7), "007.mp3");
    assert_eq!(audio_file_name(42), "042.mp3");
    assert_eq!(audio_file_name(286), "286.mp3");
    assert_eq!(audio_file_name(1000), "1000.mp3");
    assert_eq!(sidecar_file_name(7), "007.segments.json");
}

#[test]
fn rerun_without_force_skips_download_but_rewrites_sidecar() {
    let v = verse(
        3,
        "x.mp3",
        Some(vec![Segment { i: None, j: None, start_ms: 5, end_ms: 9 }]),
    );
    let plan = plan_verse(&v, false, true, &None).expect("verse is not filtered out");
    assert!(!plan.download);
    assert_eq!(plan.sidecar, "[[5,9]]");
    assert_eq!(plan.audio_name, "003.mp3");
    assert_eq!(plan.sidecar_name, "003.segments.json");
}

#[test]
fn force_downloads_even_when_present() {
    let v = verse(3, "x.mp3", None);
    let plan = plan_verse(&v, true, true, &None).unwrap();
    assert!(plan.download);
    assert_eq!(plan.sidecar, "[]");
}

#[test]
fn missing_file_is_downloaded() {
    let v = verse(3, "x.mp3", None);
    let plan = plan_verse(&v, false, false, &None).unwrap();
    assert!(plan.download);
}

#[test]
fn filtered_out_verse_is_skipped_entirely() {
    let v = verse(3, "x.mp3", None);
    assert!(plan_verse(&v, true, false, &Some(vec![1, 2])).is_none());
    assert!(plan_verse(&v, true, false, &Some(vec![3])).is_some());
}
