use kernelwhisper::stacks::{
    parse_perf_line, parse_perf_script, parse_sample_frame, parse_sample_text, perf_script_stacks,
    CaptureError,
};

#[test]
fn perf_line_reads_symbol_after_address() {
    assert_eq!(
        parse_perf_line("\t    55d4c2a1b2c3 do_work (/usr/bin/app)"),
        Some("do_work".to_string())
    );
    assert_eq!(
        parse_perf_line("\t\tffffffff8100 std::thread::spawn (inlined) (/lib/x.so)"),
        Some("std::thread::spawn".to_string())
    );
}

#[test]
fn perf_line_zero_like_symbol_is_unknown() {
    assert_eq!(parse_perf_line("\t 0 0x (/x)"), Some("[unknown]".to_string()));
    assert_eq!(parse_perf_line("\t 7f 0 ([unknown])"), Some("[unknown]".to_string()));
}

#[test]
fn perf_line_without_symbol_is_none() {
    assert_eq!(parse_perf_line("\tdeadbeef"), None);
    assert_eq!(parse_perf_line("\t   "), None);
    assert_eq!(
        parse_perf_line("\t55d4  (/usr/lib)"),
        Some("(/usr/lib)".to_string())
    );
}

#[test]
fn perf_script_stacks_are_root_first() {
    let out = "app 123 1.0: cycles:\n\t1 leaf (/a)\n\t2 mid (/a)\n\t3 main (/a)\n\napp 123 2.0: cycles:\n\t4 other (/a)\n\t5 main (/a)\n";
    let stacks = parse_perf_script(out);
    assert_eq!(
        stacks,
        vec![
            vec!["main".to_string(), "mid".to_string(), "leaf".to_string()],
            vec!["main".to_string(), "other".to_string()],
        ]
    );
}

#[test]
fn perf_script_without_frames_is_an_error() {
    assert_eq!(perf_script_stacks("header only\n\n"), Err(CaptureError::NoPerfStacks));
    assert_eq!(perf_script_stacks(""), Err(CaptureError::NoPerfStacks));
    assert!(perf_script_stacks("h:\n\t1 f (/a)\n").is_ok());
}

#[test]
fn sample_frame_rewrites_module() {
    assert_eq!(
        parse_sample_frame("12 main  (in a.out) + 40 [0x100]"),
        Some("main (a.out)".to_string())
    );
    assert_eq!(parse_sample_frame("x main (in a.out)"), None);
    assert_eq!(parse_sample_frame("3 main"), None);
    assert_eq!(parse_sample_frame("3  (in lib)"), None);
    assert_eq!(parse_sample_frame(""), None);
}

#[test]
fn sample_text_builds_paths_by_indentation() {
    let text = "Analysis of sampling\nCall graph:\n    10 Thread_1   DispatchQueue\n      10 start  (in dyld) + 1\n        8 main  (in app) + 2\n          5 work  (in app) + 3\n        2 idle  (in app) + 4\n\nTotal number in stack (recursive counted multiple, when >=5):\n      99 ignored  (in x)\n";
    let stacks = parse_sample_text(text).unwrap();
    assert_eq!(
        stacks,
        vec![vec!["start (dyld)".to_string(), "idle (app)".to_string()]]
    );
}

#[test]
fn sample_text_thread_lines_close_paths() {
    let text = "Call graph:\n    1 Thread_1\n      1 a  (in m)\n    1 Thread_2\n      1 b  (in m)\n";
    let stacks = parse_sample_text(text).unwrap();
    assert_eq!(
        stacks,
        vec![vec!["a (m)".to_string()], vec!["b (m)".to_string()]]
    );
}

#[test]
fn sample_text_without_call_graph_is_an_error() {
    assert_eq!(
        parse_sample_text("      1 a  (in m)\n"),
        Err(CaptureError::NoSampleStacks)
    );
}
