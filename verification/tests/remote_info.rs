use lindirstat::remote::{parse_remote_info, pick_bytes_if_needed, EmbeddedScanners, PickError};

#[test]
fn parses_arch_and_build() {
    let info = parse_remote_info("x86_64\nwire=1 build=0.1.0\n");
    assert_eq!(info.arch.as_deref(), Some("x86_64"));
    assert_eq!(info.build.as_deref(), Some("0.1.0"));
}

#[test]
fn missing_scanner_and_padding() {
    let info = parse_remote_info("  aarch64 \r\nbuild=missing\n");
    assert_eq!(info.arch.as_deref(), Some("aarch64"));
    assert_eq!(info.build.as_deref(), Some("missing"));
}

#[test]
fn last_report_wins_and_unknown_arch_ignored() {
    let info = parse_remote_info("armv7l\nbuild=1 build=2\nx86_64\nbuild=3\n");
    assert_eq!(info.arch.as_deref(), Some("x86_64"));
    assert_eq!(info.build.as_deref(), Some("3"));
    let none = parse_remote_info("armv7l\nhello world\n");
    assert_eq!(none.arch, None);
    assert_eq!(none.build, None);
}

#[test]
fn first_build_word_of_a_line() {
    let info = parse_remote_info("wire=1 build=abc build=def");
    assert_eq!(info.build.as_deref(), Some("abc"));
    let glued = parse_remote_info("xbuild=1");
    assert_eq!(glued.build, None);
}

const X86: &[u8] = &[1, 2, 3];
const ARM: &[u8] = &[4, 5];

fn scanners() -> Option<EmbeddedScanners<'static>> {
    Some(EmbeddedScanners { x86_64: X86, aarch64: ARM })
}

#[test]
fn no_upload_when_builds_match() {
    assert!(matches!(pick_bytes_if_needed("x86_64\nwire=1 build=0.1.0\n", "0.1.0", scanners()), Ok(None)));
}

#[test]
fn no_upload_without_embedded_scanners() {
    assert!(matches!(pick_bytes_if_needed("x86_64\nbuild=missing\n", "0.1.0", None), Ok(None)));
}

#[test]
fn upload_matching_arch() {
    match pick_bytes_if_needed("x86_64\nbuild=missing\n", "0.1.0", scanners()) {
        Ok(Some(b)) => assert_eq!(b, X86),
        _ => panic!("expected x86_64 scanner"),
    }
    match pick_bytes_if_needed("aarch64\nwire=1 build=0.0.9\n", "0.1.0", scanners()) {
        Ok(Some(b)) => assert_eq!(b, ARM),
        _ => panic!("expected aarch64 scanner"),
    }
}

#[test]
fn unsupported_arch_is_an_error() {
    match pick_bytes_if_needed("riscv64\nbuild=missing\n", "0.1.0", scanners()) {
        Err(PickError::UnsupportedArch(a)) => assert_eq!(a, ""),
        _ => panic!("expected an error"),
    }
}

#[test]
fn empty_build_matches_missing_report() {
    assert!(matches!(pick_bytes_if_needed("x86_64\n", "", scanners()), Ok(None)));
}

fn reference_info(output: &str) -> (Option<String>, Option<String>) {
    let mut arch = None;
    let mut build = None;
    for line in output.lines() {
        let line = line.trim();
        if line == "x86_64" || line == "aarch64" {
            arch = Some(line.to_string());
        }
        if let Some(v) = line.split_whitespace().find_map(|t| t.strip_prefix("build=")) {
            build = Some(v.to_string());
        }
    }
    (arch, build)
}

#[test]
fn matches_std_line_handling() {
    let cases = [
        "",
        "\n",
        "x86_64",
        "x86_64\r\n",
        "\u{3000}aarch64\u{a0}\n",
        "\u{2003}build=7\u{2029}x\n",
        "a b\tbuild=1\u{85}build=2\n\nbuild=\n",
        "x86_64\naarch64 \n build=a  build=b \r\n",
        "\u{1680}\u{205f}x86_64\u{202f}",
        "build=1\nbuild=2\n\n\n",
        "uname\nwire=1 build=0.1.0",
    ];
    for c in cases {
        let info = parse_remote_info(c);
        assert_eq!((info.arch, info.build), reference_info(c), "{c:?}");
    }
}
