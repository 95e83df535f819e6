//! Dates: calendar days, prefixes, and ages on a page.

use paddock::catalog::dates::{
    oldest_relative_date, parse_iso_date_prefix, parse_relative_ago, parse_year_month,
    ymd_to_epoch,
};

#[test]
fn ymd_to_epoch_known_values() {
    assert_eq!(ymd_to_epoch(1970, 1, 1), Some(0));
    assert_eq!(ymd_to_epoch(2024, 7, 23), Some(1_721_692_800)); // llama3.1 day
    assert_eq!(ymd_to_epoch(2025, 4, 1), Some(1_743_465_600));
    assert_eq!(ymd_to_epoch(2024, 2, 29), Some(1_709_164_800)); // leap day
    assert_eq!(ymd_to_epoch(2024, 13, 1), None);
    assert_eq!(ymd_to_epoch(2024, 0, 1), None);
    assert_eq!(ymd_to_epoch(2024, 2, 30), None);
}

#[test]
fn ymd_to_epoch_rejects_out_of_range_years() {
    assert_eq!(ymd_to_epoch(i64::MAX, 1, 1), None);
    assert_eq!(ymd_to_epoch(i64::MIN, 1, 1), None);
    assert_eq!(ymd_to_epoch(1969, 12, 31), None);
    assert_eq!(ymd_to_epoch(10_000, 1, 1), None);
    assert_eq!(ymd_to_epoch(9999, 12, 31), Some(253_402_214_400));
}

#[test]
fn parse_year_month_cases() {
    assert_eq!(parse_year_month("2025-04"), ymd_to_epoch(2025, 4, 1));
    assert_eq!(parse_year_month("2024-12"), ymd_to_epoch(2024, 12, 1));
    assert_eq!(parse_year_month("2025"), None);
    assert_eq!(parse_year_month("2025-13"), None);
    assert_eq!(parse_year_month("avril 2025"), None);
}

#[test]
fn parse_iso_date_prefix_cases() {
    // HF createdAt: "2024-03-07T15:45:34.000Z" - day prefix is enough.
    assert_eq!(
        parse_iso_date_prefix("2024-03-07T15:45:34.000Z"),
        ymd_to_epoch(2024, 3, 7)
    );
    assert_eq!(
        parse_iso_date_prefix("2024-03-07"),
        ymd_to_epoch(2024, 3, 7)
    );
    assert_eq!(parse_iso_date_prefix("garbage"), None);
    assert_eq!(parse_iso_date_prefix("2024-3-7"), None);
}

#[test]
fn parse_relative_ago_cases() {
    const NOW: i64 = 1_780_000_000;
    const DAY: i64 = 86_400;
    assert_eq!(parse_relative_ago("3 days ago", NOW), Some(NOW - 3 * DAY));
    assert_eq!(parse_relative_ago("1 day ago", NOW), Some(NOW - DAY));
    assert_eq!(parse_relative_ago("2 weeks ago", NOW), Some(NOW - 14 * DAY));
    assert_eq!(
        parse_relative_ago("6 months ago", NOW),
        Some(NOW - 6 * 30 * DAY)
    );
    assert_eq!(parse_relative_ago("1 year ago", NOW), Some(NOW - 365 * DAY));
    assert_eq!(parse_relative_ago("yesterday", NOW), Some(NOW - DAY));
    assert_eq!(parse_relative_ago("5 hours ago", NOW), Some(NOW)); // < 1 day → now
    assert_eq!(parse_relative_ago("soon", NOW), None);
}

#[test]
fn parse_relative_ago_rejects_hostile_input() {
    const NOW: i64 = 1_780_000_000;
    // Huge n must not overflow (panic in debug, wrap in release).
    assert_eq!(parse_relative_ago("99999999999999999 years ago", NOW), None);
    assert_eq!(
        parse_relative_ago("9223372036854775807 days ago", NOW),
        None
    );
    // Negative n would produce a future date.
    assert_eq!(parse_relative_ago("-3 days ago", NOW), None);
}

#[test]
fn oldest_relative_date_scans_whole_page() {
    const NOW: i64 = 1_780_000_000;
    let html = r#"
        <span x-test-updated>2 months ago</span>
        <div>… 46e0c10c039e&nbsp;·&nbsp;1 year ago</div>
        <span>3 weeks ago</span>
    "#;
    // Oldest mention wins: 1 year ago.
    assert_eq!(oldest_relative_date(html, NOW), Some(NOW - 365 * 86_400));
    assert_eq!(oldest_relative_date("<html>no dates</html>", NOW), None);
}

#[test]
fn oldest_relative_date_requires_word_boundary_after_ago() {
    const NOW: i64 = 1_780_000_000;
    const DAY: i64 = 86_400;
    // " ago" inside a longer word is not a date.
    assert_eq!(
        oldest_relative_date("we waited 3 days agonizing over it", NOW),
        None
    );
    // Punctuation or markup right after "ago" is still a date.
    assert_eq!(
        oldest_relative_date("pushed 3 days ago.", NOW),
        Some(NOW - 3 * DAY)
    );
    assert_eq!(
        oldest_relative_date("<span>3 days ago</span>", NOW),
        Some(NOW - 3 * DAY)
    );
    // End of string right after "ago" is fine too.
    assert_eq!(oldest_relative_date("3 days ago", NOW), Some(NOW - 3 * DAY));
}

#[test]
fn oldest_relative_date_survives_hostile_numbers() {
    const NOW: i64 = 1_780_000_000;
    // Must not panic (debug overflow) on absurd counts. The 20-char window
    // may salvage a smaller "N years ago" digit suffix, but the result must
    // never be a wrapped future date.
    let html = "<span>99999999999999999 years ago</span>";
    let got = oldest_relative_date(html, NOW);
    assert!(got.is_none_or(|e| e <= NOW));
}

#[test]
fn a_day_later_is_86400_seconds_later() {
    let a = ymd_to_epoch(2000, 2, 28).unwrap();
    assert_eq!(ymd_to_epoch(2000, 2, 29), Some(a + 86_400));
    assert_eq!(ymd_to_epoch(2000, 3, 1), Some(a + 2 * 86_400));
    assert_eq!(ymd_to_epoch(2100, 2, 29), None);
}

#[test]
fn ages_are_never_in_the_future() {
    let now = 1_780_000_000;
    for age in ["0 days ago", "1 month ago", "an hour ago", "7 minutes ago", "yesterday"] {
        if let Some(e) = parse_relative_ago(age, now) {
            assert!(e <= now, "{age}");
        }
    }
}

#[test]
fn a_place_for_a_digit_takes_no_sign() {
    for s in ["2025-+4", "+025-04", "2025-4+", "2025-04+", "-025-04", "2025- 4"] {
        assert_eq!(parse_year_month(s), None, "{s}");
    }
    for s in ["2024-+3-07", "2024-03-+7", "+024-03-07", "2024-03- 7", "2024-٠3-07"] {
        assert_eq!(parse_iso_date_prefix(s), None, "{s}");
    }
}

#[test]
fn the_second_of_two_ages_counts_too() {
    let now = 1_780_000_000;
    assert_eq!(
        oldest_relative_date("1 day ago 5 days ago", now),
        Some(1_779_568_000)
    );
    assert_eq!(parse_relative_ago("1 day ago 5 days ago", now), Some(now - 86_400));
    assert_eq!(parse_relative_ago("3 days ago foo", now), Some(now - 3 * 86_400));
    assert_eq!(parse_relative_ago("3 days agofoo", now), None);
    assert_eq!(parse_relative_ago("5 days ago", now), Some(1_779_568_000));
}

#[test]
fn the_oldest_of_two_pages_is_the_older_of_their_oldest() {
    let now = 1_780_000_000;
    let gap = "\n".repeat(20);
    let pages = [
        "",
        "nothing here",
        "1 day ago",
        "<b>2 weeks ago</b> and 3 days ago",
        "1 year ago",
    ];
    for a in pages {
        for b in pages {
            let both = oldest_relative_date(&format!("{a}{gap}{b}"), now);
            let (x, y) = (oldest_relative_date(a, now), oldest_relative_date(b, now));
            assert_eq!(both, x.into_iter().chain(y).min(), "{a} / {b}");
        }
    }
}

#[test]
fn no_moment_is_too_early() {
    assert_eq!(oldest_relative_date("3 days ago", i64::MIN), None);
    assert_eq!(oldest_relative_date("0 days ago", i64::MIN), Some(i64::MIN));
    assert_eq!(parse_relative_ago("1 day ago", i64::MIN), None);
}
