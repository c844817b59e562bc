use byteseek::host::{
    cap_tool_output, classify_op, dispatch_op, input_line, list_names, param_root, print_plan,
    seed_settings, should_run, spawn_plan, spawn_report, step_of, talk_entry, tool_failure,
    tool_output, vthread_keys, RwirOp, VthreadStep, TOOL_CAP,
};
use byteseek::text::{first_line, lines_of, split_names};
use byteseek::tlv::{
    elem_size, i64_le_bytes, parse_tlv, read_int, text_of, utf32_encode, utf32_to_string, TlvHead,
};

#[test]
fn talk_entries_count_up() {
    let e = talk_entry("").unwrap();
    assert_eq!(e.index, 0);
    assert_eq!(e.role_key, "/byteseek/session/talk/0/role");
    assert_eq!(e.content_key, "/byteseek/session/talk/0/content");
    assert_eq!(e.count_key, "/byteseek/session/talk/count");
    assert_eq!(e.next_count, "1");
    let e = talk_entry(" 7\n").unwrap();
    assert_eq!(e.index, 7);
    assert_eq!(e.role_key, "/byteseek/session/talk/7/role");
    assert_eq!(e.next_count, "8");
    assert_eq!(talk_entry("abc").unwrap().index, 0);
    assert_eq!(talk_entry("4294967296").unwrap().index, 0);
    assert!(talk_entry("4294967295").is_none());
    assert_eq!(talk_entry("4294967294").unwrap().next_count, "4294967295");
    let next = talk_entry(&e.next_count).unwrap();
    assert_eq!(next.index, 8);
}

#[test]
fn vthread_drive_decisions() {
    let (pc, st, err) = vthread_keys("v1");
    assert_eq!(pc, "/vthread/v1/\u{2025}pc");
    assert_eq!(st, "/vthread/v1/\u{2025}status");
    assert_eq!(err, "/vthread/v1/\u{2025}error/msg");
    assert!(matches!(step_of(0), VthreadStep::Done));
    assert!(matches!(step_of(1), VthreadStep::Dispatch));
    assert!(matches!(step_of(-3), VthreadStep::Fail));
    assert_eq!(dispatch_op("shell\u{b7}run\r\nany\nany"), "shell\u{b7}run");
    assert_eq!(dispatch_op(""), "");
}

#[test]
fn rwir_dispatch_choices() {
    assert!(matches!(classify_op("byteseek\u{b7}run"), RwirOp::RunEntry));
    assert!(matches!(classify_op("shell\u{b7}run"), RwirOp::Shell));
    assert!(matches!(classify_op("python\u{b7}run"), RwirOp::Python));
    assert!(matches!(classify_op("input"), RwirOp::Input));
    assert!(matches!(classify_op("println"), RwirOp::Standard));
    assert!(should_run("byteseek/session/x\u{b7}init"));
    assert!(!should_run(""));
    assert!(!should_run("error: no key"));
}

#[test]
fn tool_output_texts() {
    assert_eq!(tool_output(b"hi\n", b"  \n", 0), "hi\n");
    assert_eq!(tool_output(b"hi", b"boom", 1), "hi\n[stderr]\nboom");
    assert_eq!(tool_output(b" ", b"\t", -1), "(\u{65e0}\u{8f93}\u{51fa}, exit=-1)");
    assert_eq!(tool_output(b"", b"", 3), "(\u{65e0}\u{8f93}\u{51fa}, exit=3)");
    assert_eq!(tool_output(b"a\xff", b"", 0), "a\u{FFFD}");
    assert_eq!(tool_failure("not found"), "\u{6267}\u{884c}\u{5931}\u{8d25}: not found");
}

#[test]
fn tool_output_is_capped() {
    let long = "a".repeat(5000);
    let c = cap_tool_output(&long);
    assert_eq!(c, format!("{}\n\u{2026}(\u{5df2}\u{622a}\u{65ad})", "a".repeat(TOOL_CAP)));
    assert_eq!(cap_tool_output("short"), "short");
    let exact = "b".repeat(TOOL_CAP);
    assert_eq!(cap_tool_output(&exact), exact);
    // A three-byte character over byte 4000 is left out whole.
    let straddle = format!("{}\u{4e2d}tail", "c".repeat(TOOL_CAP - 1));
    assert_eq!(
        cap_tool_output(&straddle),
        format!("{}\n\u{2026}(\u{5df2}\u{622a}\u{65ad})", "c".repeat(TOOL_CAP - 1))
    );
}

#[test]
fn terminal_io_decisions() {
    assert_eq!(input_line(0, "anything"), "exit");
    assert_eq!(input_line(5, "abc\r\n"), "abc");
    assert_eq!(input_line(2, "\n\n"), "");
    let p = print_plan("x", 0, 0);
    assert_eq!(p.text, "x\n");
    assert!(!p.to_stderr);
    let p = print_plan("x", 1, 2);
    assert_eq!(p.text, "x");
    assert!(p.to_stderr);
}

#[test]
fn llm_seed_defaults() {
    let s = seed_settings(None, None, None);
    assert_eq!(s[0], ("/byteseek/llm.api".to_string(), "https://api.deepseek.com/chat/completions".to_string()));
    assert_eq!(s[1], ("/byteseek/llm.key".to_string(), String::new()));
    assert_eq!(s[2], ("/byteseek/llm.print".to_string(), "1".to_string()));
    let s = seed_settings(Some("http://x"), Some("k"), Some("0"));
    assert_eq!(s[0].1, "http://x");
    assert_eq!(s[1].1, "k");
    assert_eq!(s[2].1, "0");
}

#[test]
fn sub_agent_plan_and_report() {
    let p = spawn_plan("main", 0);
    assert_eq!(p.number, 1);
    assert_eq!(p.subtask_key, "/session/main/action/arg");
    assert_eq!(p.sub, "sub1");
    assert_eq!(p.session_path, "/session/sub1");
    assert_eq!(p.final_key, "/session/sub1/final");
    let (summary, msg) = spawn_report("count files", "");
    assert_eq!(summary, "(\u{5b50} agent \u{65e0}\u{6700}\u{7ec8}\u{7b54}\u{6848})");
    assert_eq!(msg, format!("\u{5b50} agent(count files) \u{8fd4}\u{56de}:\n{summary}"));
    let (summary, _) = spawn_report("t", "42");
    assert_eq!(summary, "42");
}

#[test]
fn params_and_listings() {
    let params = "json\u{b7}to\n/data\nslot";
    assert_eq!(param_root(params, 1), Some("/data".to_string()));
    assert_eq!(param_root(params, 2), None);
    assert_eq!(list_names(b"a\nb/\n\nc\n"), vec!["a", "b/", "c"]);
    assert_eq!(split_names("\n\n"), Vec::<String>::new());
    assert_eq!(lines_of("a\r\nb\n\nc\r"), vec!["a", "b", "", "c\r"]);
    assert_eq!(first_line("only"), "only");
}

#[test]
fn kv_text_roundtrip() {
    for s in ["", "hello", "\u{1F600} wide", "\u{2025}pc"] {
        let b = utf32_encode(s);
        assert_eq!(b.len(), 4 * s.chars().count());
        assert_eq!(utf32_to_string(&b), s);
        assert_eq!(text_of("char/utf32", &b), s);
    }
    assert_eq!(utf32_to_string(&[0x00, 0xd8, 0, 0, 0x41, 0, 0, 0, 7]), "\u{FFFD}A");
    assert_eq!(text_of("char/utf8", b"caf\xc3\xa9"), "caf\u{e9}");
}

#[test]
fn little_endian_integers() {
    assert_eq!(read_int(&[0xff]), -1);
    assert_eq!(read_int(&[0x7f]), 127);
    assert_eq!(read_int(&[0x01, 0x00]), 1);
    assert_eq!(read_int(&[0x00, 0x80]), -32768);
    assert_eq!(read_int(&[0xff, 0xff, 0xff, 0x7f]), i32::MAX as i64);
    assert_eq!(read_int(&[1, 2, 3]), 0);
    assert_eq!(read_int(&[]), 0);
    for v in [0i64, -1, 42, i64::MIN, i64::MAX] {
        assert_eq!(i64_le_bytes(v), v.to_le_bytes().to_vec());
        assert_eq!(read_int(&i64_le_bytes(v)), v);
    }
    assert_eq!(elem_size("int8"), 1);
    assert_eq!(elem_size("bool"), 1);
    assert_eq!(elem_size("uint16"), 2);
    assert_eq!(elem_size("float32"), 4);
    assert_eq!(elem_size("uint64"), 8);
    assert_eq!(elem_size("char/utf32"), 0);
}

#[test]
fn tlv_bodies_and_shapes() {
    let data = vec![9, 9, 1, 2, 3];
    let head = Some(TlvHead { kind: "uint8".to_string(), dims: vec![0, 3, -2], body_offset: 2, body_len: 3 });
    let (kind, raw, n) = parse_tlv(&data, &head);
    assert_eq!(kind, "uint8");
    assert_eq!(raw, vec![1, 2, 3]);
    assert_eq!(n, 3);
    let past = Some(TlvHead { kind: "int8".to_string(), dims: vec![], body_offset: 4, body_len: 2 });
    assert_eq!(parse_tlv(&data, &past), ("int8".to_string(), Vec::new(), 1));
    assert_eq!(parse_tlv(&data, &None), (String::new(), Vec::new(), 1));
    assert_eq!(parse_tlv(&[], &head), (String::new(), Vec::new(), 1));
}
