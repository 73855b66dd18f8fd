use swuc::inventory::{parse_listing, parse_row, split_char, unquote, AppFinder, InventoryError, Platform, Probe, RowFormat};

fn s(x: &str) -> String {
    x.to_string()
}

#[test]
fn test_app_finder_new() {
    let finder = AppFinder::new();
    assert!(["windows", "macos", "linux", "unknown"].contains(&finder.platform.as_str()));
}

#[test]
fn probes_per_platform() {
    assert_eq!(AppFinder::for_platform(Platform::Windows).probes().unwrap(), vec![Probe::RegistryWow64, Probe::Registry]);
    assert_eq!(AppFinder::for_platform(Platform::MacOs).probes().unwrap(), vec![Probe::MacApplications, Probe::Homebrew]);
    assert_eq!(AppFinder::for_platform(Platform::Linux).probes().unwrap().len(), 5);
    assert_eq!(AppFinder::for_platform(Platform::Unknown).probes().err(), Some(InventoryError::UnsupportedPlatform));
    let r = AppFinder::for_platform(Platform::Unknown).get_installed_apps(&vec![]);
    assert_eq!(r.err(), Some(InventoryError::UnsupportedPlatform));
}

#[test]
fn split_and_unquote() {
    assert_eq!(split_char("a,b,", ','), vec![s("a"), s("b"), s("")]);
    assert_eq!(split_char("", ','), vec![s("")]);
    assert_eq!(unquote("\"\"Firefox\""), "Firefox");
    assert_eq!(unquote("\"\""), "");
}

#[test]
fn rows_in_each_format() {
    assert_eq!(parse_row("\"Firefox\",\"120.0\"", RowFormat::Csv), Some((s("Firefox"), s("120.0"))));
    assert_eq!(parse_row("\"\",\"1\"", RowFormat::Csv), None);
    assert_eq!(parse_row("bash,5.2-1", RowFormat::Pair(',')), Some((s("bash"), s("5.2-1"))));
    assert_eq!(parse_row("a,b,c", RowFormat::Pair(',')), None);
    assert_eq!(parse_row("ii  curl  8.5.0-2 amd64 tool", RowFormat::Dpkg), Some((s("curl"), s("8.5.0-2"))));
    assert_eq!(parse_row("rc  curl  8.5.0-2 amd64", RowFormat::Dpkg), None);
    assert_eq!(parse_row("linux 6.1 extra", RowFormat::TwoWords), None);
    assert_eq!(parse_row("linux 6.1", RowFormat::TwoWords), Some((s("linux"), s("6.1"))));
    assert_eq!(parse_row("git 2.43 2.42", RowFormat::LeadingWords), Some((s("git"), s("2.43"))));
}

#[test]
fn listings_skip_headers_and_merge() {
    let csv = "\"DisplayName\",\"DisplayVersion\"\r\n\"7-Zip\",\"23.01\"\r\n\"App\",\"1.0\"\r\n";
    assert_eq!(parse_listing(Probe::Registry, csv), vec![(s("7-Zip"), s("23.01")), (s("App"), s("1.0"))]);
    let snap = "Name Version Rev\ncore 16 100\n";
    assert_eq!(parse_listing(Probe::Snap, snap), vec![(s("core"), s("16"))]);
    let finder = AppFinder::for_platform(Platform::Linux);
    let apps = finder
        .get_installed_apps(&vec![(Probe::Rpm, s("curl,8.0-1\n")), (Probe::Pacman, s("curl 8.1\nzsh 5.9\n"))])
        .unwrap();
    assert_eq!(apps.get("curl").as_deref(), Some("8.1"));
    assert_eq!(apps.get("zsh").as_deref(), Some("5.9"));
}
