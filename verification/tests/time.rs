use rustypi::time::{days_from_civil, DateTime, Zone};

#[test]
fn unix_times_become_dates() {
    assert_eq!(DateTime::from_unix(0).to_string(), "Thu 1970-01-01 00:00:00");
    assert_eq!(DateTime::from_unix(1_000_000_000).to_string(), "Sun 2001-09-09 01:46:40");
    // A leap day, and the day after.
    assert_eq!(DateTime::from_unix(1_709_164_800).to_string(), "Thu 2024-02-29 00:00:00");
    assert_eq!(DateTime::from_unix(1_709_251_199).to_string(), "Thu 2024-02-29 23:59:59");
    assert_eq!(DateTime::from_unix(1_709_251_200).to_string(), "Fri 2024-03-01 00:00:00");
    // Century rules: 2100 isn't a leap year.
    assert_eq!(DateTime::from_unix(4_107_542_400).to_string(), "Mon 2100-03-01 00:00:00");
}

#[test]
fn days_count_both_ways() {
    for unix in [0, 951_782_400, 1_709_164_800, 4_107_542_400u64] {
        let date = DateTime::from_unix(unix);
        assert_eq!(days_from_civil(date.year, date.month, date.day) * 86_400, unix as i64);
    }
    assert_eq!(days_from_civil(2025, 13, 1), days_from_civil(2026, 1, 1));
}

#[test]
fn swedish_summer_time_starts_and_ends_on_the_last_sundays() {
    // 2026: from Sunday 29 March to Sunday 25 October, at 01:00 UTC.
    let start = 1_774_746_000; // 2026-03-29 01:00:00 UTC
    let end = 1_792_890_000; // 2026-10-25 01:00:00 UTC
    assert_eq!(DateTime::from_unix(start).to_string(), "Sun 2026-03-29 01:00:00");
    assert_eq!(DateTime::from_unix(end).to_string(), "Sun 2026-10-25 01:00:00");
    assert_eq!(Zone::Sweden.offset(start - 1), (3600, "CET"));
    assert_eq!(Zone::Sweden.offset(start), (7200, "CEST"));
    assert_eq!(Zone::Sweden.offset(end - 1), (7200, "CEST"));
    assert_eq!(Zone::Sweden.offset(end), (3600, "CET"));
    // Local clocks jump from 02:00 to 03:00 in March, and back from 03:00 to 02:00.
    assert_eq!(Zone::Sweden.local(start - 1).0.to_string(), "Sun 2026-03-29 01:59:59");
    assert_eq!(Zone::Sweden.local(start).0.to_string(), "Sun 2026-03-29 03:00:00");
    assert_eq!(Zone::Sweden.local(end - 1).0.to_string(), "Sun 2026-10-25 02:59:59");
    assert_eq!(Zone::Sweden.local(end).0.to_string(), "Sun 2026-10-25 02:00:00");
    // A leap year, and across midnight.
    assert_eq!(Zone::Sweden.local(1_711_846_800).1, "CEST"); // 2024-03-31 01:00 UTC
    assert_eq!(Zone::Sweden.local(1_790_029_800).0.to_string(), "Tue 2026-09-22 00:30:00"); // 22:30 UTC
    assert_eq!(Zone::Utc.local(1_790_020_000), (DateTime::from_unix(1_790_020_000), "UTC"));
}

#[test]
fn zones_are_chosen_by_name() {
    for zone in Zone::all() {
        assert_eq!(Zone::from_name(zone.name()), Some(zone));
    }
    assert_eq!(Zone::from_name("mars"), None);
}

#[test]
fn dates_pack_into_fat_fields() {
    let date = DateTime::from_unix(1_790_000_000); // 2026-09-21 14:13:20
    assert_eq!(date.to_string(), "Mon 2026-09-21 14:13:20");
    let (fat_date, fat_time) = date.fat();
    assert_eq!(fat_date, (46 << 9) | (9 << 5) | 21);
    assert_eq!(fat_time, (14 << 11) | (13 << 5) | 10);
    // Before FAT's epoch: its first day.
    assert_eq!(DateTime::from_unix(0).fat(), (1 << 5 | 1, 0));
}

#[test]
fn days_follow_one_another() {
    assert_eq!(days_from_civil(2024, 2, 29) + 1, days_from_civil(2024, 3, 1));
    assert_eq!(days_from_civil(1900, 2, 28) + 1, days_from_civil(1900, 3, 1));
    assert_eq!(days_from_civil(1969, 12, 31), -1);
    assert_eq!(days_from_civil(2000, 1, 1), 10_957);
}

#[test]
fn every_zone_is_found_by_its_name() {
    for zone in Zone::all() {
        assert_eq!(Zone::from_name(zone.name()), Some(zone));
    }
    assert_eq!(Zone::from_name("nowhere"), None);
}

#[test]
fn utc_takes_every_time() {
    assert_eq!(Zone::Utc.offset(u64::MAX), (0, "UTC"));
}
