use lindirstat::build_tools::{arch_from_target, pick_cross_tool, CrossToolError};
use lindirstat::human::human;
use lindirstat::shell::{build_cmd, mkdir_cmd, shell_escape, upload_cmd, version_check_cmd};

fn reference_human(bytes: u64) -> String {
    const UNITS: &[&str] = &["B", "KB", "MB", "GB", "TB", "PB"];
    let mut v = bytes as f64;
    let mut u = 0;
    while v >= 1024.0 && u < UNITS.len() - 1 {
        v /= 1024.0;
        u += 1;
    }
    if u == 0 {
        format!("{bytes} B")
    } else {
        format!("{v:.1} {}", UNITS[u])
    }
}

#[test]
fn human_examples() {
    assert_eq!(human(0), "0 B");
    assert_eq!(human(1023), "1023 B");
    assert_eq!(human(1024), "1.0 KB");
    assert_eq!(human(1536), "1.5 KB");
    assert_eq!(human(1280), reference_human(1280));
    assert_eq!(human(48_535_150_182), "45.2 GB");
    assert_eq!(human(u64::MAX), reference_human(u64::MAX));
}

#[test]
fn human_matches_float_formatting() {
    let mut samples: Vec<u64> = (0..5000).collect();
    for k in 0..64 {
        let p = 1u64 << k;
        for d in 0..40u64 {
            samples.push(p.wrapping_add(d));
            samples.push(p.wrapping_sub(d));
        }
    }
    for k in 0..6u32 {
        let p = 1024u64.pow(k);
        for m in 0..3000u64 {
            samples.push(p.saturating_mul(1000 + m) / 1000);
            samples.push(p.saturating_mul(1024).saturating_sub(m));
        }
    }
    let mut x: u64 = 0x9e37_79b9_7f4a_7c15;
    for _ in 0..200_000 {
        x = x.wrapping_mul(6364136223846793005).wrapping_add(1442695040888963407);
        samples.push(x >> (x % 64));
    }
    for b in samples {
        assert_eq!(human(b), reference_human(b), "bytes = {b}");
    }
}

#[test]
fn shell_escape_keeps_plain_words() {
    assert_eq!(shell_escape("~/.cache/lindirstat/scanner"), "~/.cache/lindirstat/scanner");
    assert_eq!(shell_escape("/var/log"), "/var/log");
    assert_eq!(shell_escape("a=b:c-d_e.f"), "a=b:c-d_e.f");
}

#[test]
fn shell_escape_quotes_the_rest() {
    assert_eq!(shell_escape("my dir"), "'my dir'");
    assert_eq!(shell_escape("it's"), "'it'\\''s'");
    assert_eq!(shell_escape(""), "");
    assert_eq!(shell_escape("$HOME"), "'$HOME'");
    assert_eq!(shell_escape("héllo"), "'héllo'");
}

#[test]
fn build_cmd_variants() {
    assert_eq!(build_cmd("~/s", "/home", false, false), "~/s /home");
    assert_eq!(build_cmd("~/s", "/home", true, false), "sudo ~/s /home");
    assert_eq!(build_cmd("~/s", "/my home", false, true), "~/s '/my home' --one-filesystem");
    assert_eq!(build_cmd("~/s", "/", true, true), "sudo ~/s / --one-filesystem");
}

#[test]
fn arch_from_target_takes_first_component() {
    assert_eq!(arch_from_target("x86_64-unknown-linux-musl"), "x86_64");
    assert_eq!(arch_from_target("aarch64-unknown-linux-musl"), "aarch64");
    assert_eq!(arch_from_target("wasm32"), "wasm32");
    assert_eq!(arch_from_target(""), "");
    assert_eq!(arch_from_target("-x"), "");
}

#[test]
fn cross_tool_preference() {
    assert_eq!(pick_cross_tool(true, true), Ok("cross"));
    assert_eq!(pick_cross_tool(true, false), Ok("cross"));
    assert_eq!(pick_cross_tool(false, true), Ok("cargo-zigbuild"));
    assert_eq!(pick_cross_tool(false, false), Err(CrossToolError::NoCrossTool));
}

/// Reads `t` as one POSIX shell word made of plain characters, backslash
/// escapes and single-quoted parts; `None` for anything else.
fn read_word(t: &str) -> Option<String> {
    if t.is_empty() || t.starts_with('~') {
        return None;
    }
    let mut word = String::new();
    let mut chars = t.chars();
    let mut quoted = false;
    while let Some(c) = chars.next() {
        if quoted {
            if c == '\'' {
                quoted = false;
            } else {
                word.push(c);
            }
        } else if c == '\'' {
            quoted = true;
        } else if c == '\\' {
            match chars.next() {
                Some('\n') | None => return None,
                Some(d) => word.push(d),
            }
        } else if c.is_ascii_alphanumeric() || "/_.-~=:".contains(c) {
            word.push(c);
        } else {
            return None;
        }
    }
    if quoted {
        None
    } else {
        Some(word)
    }
}

#[test]
fn escaped_text_reads_back_as_one_word() {
    for s in ["plain/path-1.0", "a b", "it's", "$HOME/*", "x'y'z", "a~b", "~/with space", "''", "\\n"] {
        assert_eq!(read_word(&shell_escape(s)), Some(s.to_string()), "{s}");
    }
    assert_eq!(read_word("a b"), None);
    assert_eq!(read_word("'open"), None);
}

#[test]
fn remote_command_texts() {
    assert_eq!(
        version_check_cmd("~/.cache/lindirstat/scanner"),
        "uname -m; ~/.cache/lindirstat/scanner --wire-version 2>/dev/null || echo 'build=missing'"
    );
    assert_eq!(
        upload_cmd("/opt/my scanner"),
        "mkdir -p $(dirname '/opt/my scanner') && cat > '/opt/my scanner' && chmod +x '/opt/my scanner'"
    );
    assert_eq!(mkdir_cmd("/tmp/x"), "mkdir -p /tmp/x");
    assert_eq!(mkdir_cmd("it's"), "mkdir -p 'it'\\''s'");
}
