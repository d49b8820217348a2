use git_annex_browser::trust::TrustLevel;
use git_annex_browser::util::{
    first_bytes, fmt_unix, human_bytes, last_bytes, short_uuid, takes_at_most, trust_color, Color,
};

fn by_division(n: u64) -> String {
    let units = ["B", "KiB", "MiB", "GiB", "TiB", "PiB"];
    if n == 0 {
        return "0 B".to_string();
    }
    let mut size = n as f64;
    let mut i = 0;
    while size >= 1024.0 && i < units.len() - 1 {
        size /= 1024.0;
        i += 1;
    }
    if i == 0 {
        format!("{} {}", n, units[0])
    } else {
        format!("{:.1} {}", size, units[i])
    }
}

#[test]
fn sizes_as_they_are_shown() {
    assert_eq!(human_bytes(0), "0 B");
    assert_eq!(human_bytes(1023), "1023 B");
    assert_eq!(human_bytes(1024), "1.0 KiB");
    assert_eq!(human_bytes(1280), "1.2 KiB");
    assert_eq!(human_bytes(1792), "1.8 KiB");
    assert_eq!(human_bytes(1048575), "1024.0 KiB");
    assert_eq!(human_bytes(1048576), "1.0 MiB");
    assert_eq!(human_bytes(5_000_000_000), "4.7 GiB");
    assert_eq!(human_bytes(1 << 40), "1.0 TiB");
    assert_eq!(human_bytes(u64::MAX), "16384.0 PiB");
}

#[test]
fn sizes_agree_with_doubles() {
    for n in 0..20_000u64 {
        assert_eq!(human_bytes(n), by_division(n));
    }
    for k in 0..64u32 {
        let p = 1u64 << k;
        for d in 0..70u64 {
            for n in [p.wrapping_add(d), p.wrapping_sub(d), p.wrapping_mul(d)] {
                assert_eq!(human_bytes(n), by_division(n), "{n}");
            }
        }
    }
    for unit in [1u64 << 10, 1 << 20, 1 << 30, 1 << 40, 1 << 50] {
        for t in 0..12_000u64 {
            let n = unit / 20 * t;
            for m in [n, n + 1, n.saturating_sub(1), unit + unit / 4 * t] {
                assert_eq!(human_bytes(m), by_division(m), "{m}");
            }
        }
    }
    let mut x = 0x9e37_79b9_7f4a_7c15u64;
    for _ in 0..200_000 {
        x ^= x << 13;
        x ^= x >> 7;
        x ^= x << 17;
        assert_eq!(human_bytes(x), by_division(x), "{x}");
        let y = x >> (x % 60);
        assert_eq!(human_bytes(y), by_division(y), "{y}");
    }
}

#[test]
fn times_as_they_are_shown() {
    assert_eq!(fmt_unix(0), "never");
    assert_eq!(fmt_unix(-5), "never");
    assert_eq!(fmt_unix(1), "1970-01-01 00:00");
    assert_eq!(fmt_unix(1317929189), "2011-10-06 19:26");
    assert_eq!(fmt_unix(951_868_799), "2000-02-29 23:59");
    assert_eq!(fmt_unix(i64::MAX), "1970-01-01 00:00");
}

#[test]
fn uuids_are_cut_after_eight_bytes() {
    assert_eq!(short_uuid("12345678"), "12345678");
    assert_eq!(short_uuid("123456789"), "12345678…");
    assert_eq!(short_uuid(""), "");
    assert_eq!(short_uuid("ääääää"), "ääää…");
    assert_eq!(short_uuid("aäääää"), "aäää…");
}

#[test]
fn cuts_keep_whole_characters() {
    assert_eq!(first_bytes("aä", 2), "a");
    assert_eq!(first_bytes("aä", 3), "aä");
    assert_eq!(last_bytes("äa", 2), "a");
    assert_eq!(last_bytes("abc", 2), "bc");
    assert_eq!(last_bytes("€x", 3), "x");
    assert_eq!(last_bytes("€x", 4), "€x");
    assert!(takes_at_most("€", 3));
    assert!(!takes_at_most("😀", 3));
    assert!(takes_at_most("😀", 4));
}

#[test]
fn trust_levels_have_colors() {
    assert_eq!(trust_color(TrustLevel::Trusted), Color::Green);
    assert_eq!(trust_color(TrustLevel::SemiTrusted), Color::Yellow);
    assert_eq!(trust_color(TrustLevel::UnTrusted), Color::Red);
    assert_eq!(trust_color(TrustLevel::Dead), Color::DarkGray);
}
