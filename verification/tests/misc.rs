use kernelwhisper::playbook::Playbook;
use kernelwhisper::text::{
    chars_of, line_ranges, parse_u64_range, push_decimal, trim_range, word_ranges,
};
use kernelwhisper::types::{FlameKind, GpuUtilSource};

#[test]
fn bundled_playbook_panels() {
    let p = Playbook::bundled();
    assert!(p.intro.starts_with("KernelWhisper combines host telemetry"));
    let ids: Vec<&str> = p.panels.iter().map(|x| x.id).collect();
    assert_eq!(ids, vec!["cpu_flame", "gpu_tree", "insights"]);
    assert_eq!(p.panels[0].what_to_do.len(), 3);
    assert_eq!(p.panels[2].what_to_do.len(), 2);
    assert_eq!(p.panels[1].title, "GPU panel");
}

#[test]
fn flame_kind_wire_names() {
    assert_eq!(FlameKind::Cpu.as_str(), "cpu");
    assert_eq!(FlameKind::Gpu.as_str(), "gpu");
    assert_eq!(FlameKind::parse("gpu"), Some(FlameKind::Gpu));
    assert_eq!(FlameKind::parse("cpu"), Some(FlameKind::Cpu));
    assert_eq!(FlameKind::parse("CPU"), None);
    assert_eq!(GpuUtilSource::default(), GpuUtilSource::EstimatedFromCpu);
}

fn parse(s: &str) -> Option<u64> {
    let v = chars_of(s);
    parse_u64_range(&v, 0, v.len())
}

#[test]
fn decimal_parsing_matches_std() {
    for s in ["0", "+7", "18446744073709551615", "18446744073709551616", "", "+", "-1", " 1", "12a"] {
        assert_eq!(parse(s), s.parse::<u64>().ok(), "input {s:?}");
    }
}

#[test]
fn lines_match_std() {
    for s in ["", "a", "a\n", "a\r\nb", "\n\n", "x\r", "a\nb\r\n\r\n"] {
        let v = chars_of(s);
        let got: Vec<String> = line_ranges(&v)
            .iter()
            .map(|&(a, b)| v[a..b].iter().collect())
            .collect();
        let want: Vec<String> = s.lines().map(|l| l.to_string()).collect();
        assert_eq!(got, want, "input {s:?}");
    }
}

#[test]
fn words_and_trim_match_std() {
    for s in ["", "  a b  ", "\u{3000}x\u{a0}y\t z\n", "no-space", "\u{85}\u{2028}"] {
        let v = chars_of(s);
        let got: Vec<String> = word_ranges(&v, 0, v.len())
            .iter()
            .map(|&(a, b)| v[a..b].iter().collect())
            .collect();
        let want: Vec<String> = s.split_whitespace().map(|w| w.to_string()).collect();
        assert_eq!(got, want, "input {s:?}");
        let (a, b) = trim_range(&v, 0, v.len());
        let t: String = v[a..b].iter().collect();
        assert_eq!(t, s.trim(), "input {s:?}");
    }
}

#[test]
fn decimal_formatting_matches_std() {
    for n in [0u64, 7, 10, 99, 1234567890, u64::MAX] {
        let mut s = String::new();
        push_decimal(&mut s, n);
        assert_eq!(s, n.to_string());
    }
}
