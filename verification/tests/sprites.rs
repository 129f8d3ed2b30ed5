use spritebox::sprites::api::{
    allows, api_error, bearer, clipboard_complaint, clipboard_failure, control_url, fly_authorization, lookup_outcome,
    open_file_name, paste_file_name, prompt_answer, read_file_url, request_outcome, sprite_url,
    sprites_url, stop_url, tokens_url, write_file_url, Answered, ApiError,
};
use spritebox::sprites::bridge::BridgeFilter;
use spritebox::sprites::command::{
    dispatch_osc_bytes, handle_bridge_command, open_extension, sequence_body, BridgeAction,
};
use spritebox::sprites::dial::{
    Dial, DialAction, DialEvent, DialStep, CONTROL_TIMEOUT_SECS, DIRECT_TIMEOUT_SECS,
    EXEC_TIMEOUT_SECS,
};
use spritebox::sprites::exec::{
    build_control_args, build_exec_url, command_fits, command_preview, control_object,
    control_payload, exec_query, exec_timed_out, frame_preview, on_console_message, op_start,
    parsed_url, release_message, resize_message, stdin_frames, ControlMessage, EnvVar, ExecParams,
    ExecSession,
};
use spritebox::sprites::request::{HostRequest, RequestAction, RequestEvent};

fn s(text: &str) -> String {
    text.to_string()
}

fn params(cmd: &[&str], env: &[(&str, &str)], dir: Option<&str>, tty: bool) -> ExecParams {
    ExecParams {
        sprite_name: s("repo-main"),
        cmd: cmd.iter().map(|w| s(w)).collect(),
        env: env.iter().map(|(k, v)| EnvVar { key: s(k), value: s(v) }).collect(),
        dir: dir.map(s),
        tty,
        rows: if tty { Some(24) } else { None },
        cols: if tty { Some(80) } else { None },
    }
}

#[test]
fn output_gathers_by_channel() {
    let mut session = ExecSession::new();
    session.on_binary(b"\x01out");
    session.on_binary(b"\x02err");
    session.on_binary(b"");
    session.on_binary(b"\x01put");
    session.on_binary(b"\x09other");
    session.on_binary(b"\x03\x07");
    let result = session.finish();
    assert_eq!(result.stdout, "output");
    assert_eq!(result.stderr, "err");
    assert_eq!(result.exit_code, 7);
}

#[test]
fn output_that_is_no_text_is_shown_as_far_as_it_is() {
    let mut session = ExecSession::new();
    session.on_binary(b"\x01a\xffb");
    assert_eq!(session.finish().stdout, "a\u{fffd}b");
}

#[test]
fn the_exit_code_of_a_frame_comes_before_that_of_a_message() {
    let exit = |code: Option<i32>| Some(ControlMessage { msg_type: s("exit"), exit_code: code });
    let mut session = ExecSession::new();
    assert!(session.on_text("{}", exit(Some(3))));
    assert_eq!(session.finish().exit_code, 3);

    let mut session = ExecSession::new();
    session.on_binary(b"\x03");
    assert!(session.on_text("{}", exit(Some(3))));
    assert_eq!(session.finish().exit_code, 0);

    let mut session = ExecSession::new();
    assert!(!session.on_text("control:{}", exit(Some(3))));
    assert!(!session.on_text("hello", None));
    let other = Some(ControlMessage { msg_type: s("ready"), exit_code: Some(1) });
    assert!(!session.on_text("{}", other));
    assert_eq!(session.finish().exit_code, -1);
}

#[test]
fn input_is_followed_by_its_end() {
    assert_eq!(stdin_frames(b"ab"), vec![vec![0, b'a', b'b'], vec![4]]);
    assert_eq!(stdin_frames(b""), vec![vec![4]]);
}

#[test]
fn a_console_ends_with_a_message() {
    let m = |t: &str, code: Option<i32>| ControlMessage { msg_type: s(t), exit_code: code };
    assert_eq!(on_console_message(&m("exit", Some(2))), Some(2));
    assert_eq!(on_console_message(&m("exit", None)), Some(0));
    assert_eq!(on_console_message(&m("op.complete", Some(9))), Some(0));
    assert_eq!(on_console_message(&m("op.error", None)), Some(0));
    assert_eq!(on_console_message(&m("ready", None)), None);
    assert_eq!(control_payload("control:{\"a\":1}"), "{\"a\":1}");
    assert_eq!(control_payload("{\"a\":1}"), "{\"a\":1}");
}

#[test]
fn the_arguments_of_a_command_are_json() {
    let p = params(&["ls", "-l \"x\""], &[("A", "1"), ("B", "2")], Some("/w"), true);
    let text = build_control_args(&p);
    assert_eq!(
        text,
        "{\"cmd\":[\"ls\",\"-l \\\"x\\\"\"],\"dir\":\"/w\",\"env\":[\"A=1\",\"B=2\"],\
         \"path\":\"ls\",\"stdin\":\"true\",\"tty\":\"true\"}"
    );
    let value: serde_json::Value = serde_json::from_str(&text).unwrap();
    assert_eq!(value.to_string(), text);
    assert_eq!(
        build_control_args(&params(&[], &[], None, false)),
        "{\"stdin\":\"true\"}"
    );
    assert_eq!(
        control_object(&vec![s("1"), s("2")], &Some(s("3")), &vec![s("4")], false),
        "{\"cmd\":[1,2],\"dir\":3,\"env\":[4],\"path\":1,\"stdin\":\"true\"}"
    );
}

#[test]
fn words_are_escaped_in_objects() {
    let text = "q\" b\\ \u{8}\t\n\u{c}\r \0 \u{1f} \u{7f} \u{e9} /";
    assert_eq!(
        build_control_args(&params(&[], &[], Some(text), false)),
        "{\"dir\":\"q\\\" b\\\\ \\b\\t\\n\\f\\r \\u0000 \\u001f \u{7f} \u{e9} /\",\
         \"stdin\":\"true\"}"
    );
}

#[test]
fn messages_of_the_control_connection() {
    assert_eq!(
        op_start(&params(&["id"], &[], None, false)),
        "control:{\"args\":{\"cmd\":[\"id\"],\"path\":\"id\",\"stdin\":\"true\"},\
         \"op\":\"exec\",\"type\":\"op.start\"}"
    );
    assert_eq!(release_message(), "{\"type\":\"release\"}");
    assert_eq!(resize_message(80, 24), "{\"cols\":80,\"rows\":24,\"type\":\"resize\"}");
}

#[test]
fn the_address_of_a_command_carries_it() {
    let p = params(&["echo", "a b&c"], &[("K", "v=1")], Some("/w"), true);
    assert_eq!(
        build_exec_url(&p).unwrap(),
        "wss://api.sprites.dev/v1/sprites/repo-main/exec?cmd=echo&cmd=a+b%26c&path=echo\
         &env=K%3Dv%3D1&dir=%2Fw&tty=true&stdin=true&rows=24&cols=80"
    );
    let p = params(&[], &[], None, false);
    assert_eq!(
        build_exec_url(&p).unwrap(),
        "wss://api.sprites.dev/v1/sprites/repo-main/exec?tty=false&stdin=true"
    );
    assert_eq!(exec_query(&p).len(), 2);
    assert_eq!(parsed_url(Ok(s("wss://x"))), Ok(s("wss://x")));
    assert_eq!(parsed_url(Err(s("why"))), Err(s("invalid URL: why")));
}

#[test]
fn long_commands_are_shown_in_part() {
    assert_eq!(command_preview(&vec![s("ls"), s("-l")]), "ls -l");
    let eighty = "x".repeat(80);
    assert_eq!(command_preview(&vec![eighty.clone()]), eighty);
    let shown = command_preview(&vec!["x".repeat(81)]);
    assert_eq!(shown, format!("{}...", "x".repeat(77)));
    assert_eq!(frame_preview(&"y".repeat(201)), "y".repeat(200));
    assert_eq!(frame_preview("short"), "short");
    assert_eq!(exec_timed_out(120), "exec timed out after 120s");
}

#[test]
fn addresses_of_the_service() {
    assert_eq!(sprites_url(), "https://api.sprites.dev/v1/sprites");
    assert_eq!(sprite_url("a"), "https://api.sprites.dev/v1/sprites/a");
    assert_eq!(stop_url("a"), "https://api.sprites.dev/v1/sprites/a/stop");
    assert_eq!(
        read_file_url("a", "/x"),
        "https://api.sprites.dev/v1/sprites/a/fs/read?path=/x"
    );
    assert_eq!(
        write_file_url("a", "/x"),
        "https://api.sprites.dev/v1/sprites/a/fs/write?path=/x"
    );
    assert_eq!(tokens_url("o"), "https://api.sprites.dev/v1/organizations/o/tokens");
    assert_eq!(control_url("a"), "wss://api.sprites.dev/v1/sprites/a/control");
    assert_eq!(bearer("t"), "Bearer t");
    assert_eq!(fly_authorization("t"), "FlyV1 t");
}

#[test]
fn answers_of_the_service() {
    assert_eq!(request_outcome(200), Answered::Success);
    assert_eq!(request_outcome(299), Answered::Success);
    assert_eq!(request_outcome(300), Answered::Failure);
    assert_eq!(request_outcome(404), Answered::Failure);
    assert_eq!(lookup_outcome(404), Answered::Missing);
    assert_eq!(lookup_outcome(204), Answered::Success);
    assert_eq!(lookup_outcome(500), Answered::Failure);
    let said = |error: &str, message: &str| {
        Some(ApiError { error: s(error), message: s(message) })
    };
    assert_eq!(api_error("404 Not Found", said("e", "m")), "API error (404 Not Found): m");
    assert_eq!(api_error("404 Not Found", said("e", "")), "API error (404 Not Found): e");
    assert_eq!(api_error("500", None), "API error (500)");
}

#[test]
fn the_host_asks_before_it_acts() {
    assert_eq!(prompt_answer(true, b" allow\n"), Some(true));
    assert_eq!(prompt_answer(true, b"deny\n"), Some(false));
    assert_eq!(prompt_answer(false, b"allow\n"), None);
    assert!(allows(" allow\n") && !allows("deny") && !allows("Allow"));
    assert_eq!(clipboard_complaint(" no image \n"), "no image");
    assert_eq!(clipboard_complaint(""), "clipboard image export failed");
    assert_eq!(clipboard_failure(b" no image \n"), "no image");
    assert_eq!(clipboard_failure(b" \n"), "clipboard image export failed");
    assert_eq!(open_file_name(17, "png"), "spritebox-open-17.png");
    assert_eq!(paste_file_name(17), "spritebox-paste-17.png");
}

// ---- the bridge ----

#[test]
fn sequences_are_taken_out_of_the_output() {
    let mut filter = BridgeFilter::new();
    let (output, sequences) =
        filter.filter(b"before\x1b]9999;open;/a\x07between\x1b]9999;open;/b\x1b\\after");
    assert_eq!(output, b"beforebetweenafter");
    assert_eq!(
        sequences,
        vec![b"\x1b]9999;open;/a\x07".to_vec(), b"\x1b]9999;open;/b\x1b\\".to_vec()]
    );
}

#[test]
fn a_sequence_may_come_in_pieces() {
    let whole = b"ab\x1b]9999;browser-open;https://example.com\x07cd";
    for cut in 0..whole.len() {
        let mut filter = BridgeFilter::new();
        let (mut output, mut sequences) = filter.filter(&whole[..cut]);
        let (more, later) = filter.filter(&whole[cut..]);
        output.extend(more);
        sequences.extend(later);
        assert_eq!(output, b"abcd", "cut at {cut}");
        assert_eq!(sequences.len(), 1, "cut at {cut}");
    }
}

#[test]
fn a_sequence_after_a_broken_beginning_is_taken_out() {
    for beginning in [&b"\x1b"[..], &b"\x1b]"[..], &b"\x1b]9999"[..]] {
        let mut filter = BridgeFilter::new();
        let (output, _) = filter.filter(beginning);
        assert!(output.is_empty());
        let (output, sequences) = filter.filter(b"\x1b]9999;noop;x\x07");
        assert_eq!(output, beginning);
        assert_eq!(sequences, vec![b"\x1b]9999;noop;x\x07".to_vec()]);
        let (output, _) = filter.filter(b"end");
        assert_eq!(output, b"end");
    }
}

#[test]
fn other_output_is_not_touched() {
    let mut filter = BridgeFilter::new();
    let text = b"plain \x1b[31mred\x1b[0m \x1b]0;title\x07 end";
    let (output, sequences) = filter.filter(text);
    assert_eq!(output, text);
    assert!(sequences.is_empty());
    let (output, _) = filter.filter(b"\x1b]99");
    assert!(output.is_empty());
    let (output, sequences) = filter.filter(b"x");
    assert_eq!(output, b"\x1b]99x");
    assert!(sequences.is_empty());
}

#[test]
fn a_sequence_without_end_is_given_up() {
    let mut filter = BridgeFilter::new();
    filter.filter(b"\x1b]9999;");
    let (output, sequences) = filter.filter(&vec![b'x'; 9000]);
    assert!(sequences.is_empty());
    assert_eq!(output.len(), 9007);
}

#[test]
fn what_sequences_ask_for() {
    let by_bell = dispatch_osc_bytes(b"\x1b]9999;open;/a.txt\x07");
    let by_st = dispatch_osc_bytes(b"\x1b]9999;open;/a.txt\x1b\\");
    assert_eq!(by_bell, Some(BridgeAction::Open(s("/a.txt"))));
    assert_eq!(by_bell, by_st);
    assert_eq!(
        handle_bridge_command("browser-open;https://a;b"),
        Some(BridgeAction::BrowserOpen(s("https://a;b")))
    );
    assert_eq!(
        handle_bridge_command("paste-image;/p.png"),
        Some(BridgeAction::PasteImage(s("/p.png")))
    );
    assert_eq!(handle_bridge_command("open;"), None);
    assert_eq!(handle_bridge_command("open"), None);
    assert_eq!(handle_bridge_command("run;rm"), None);
    assert_eq!(dispatch_osc_bytes(b"\x1b]9998;open;/a\x07"), None);
    assert_eq!(dispatch_osc_bytes(b"\x1b]9999;open;\xff\x07"), None);
    assert_eq!(sequence_body(b"\x1b]9999;x\x07"), Some(b"x".to_vec()));
}

#[test]
fn only_some_kinds_of_files_are_opened() {
    assert_eq!(open_extension("/w/report.HTML"), Ok(s("html")));
    assert_eq!(open_extension("/w/a.b/c.csv"), Ok(s("csv")));
    assert_eq!(open_extension("/w/report"), Err(s("file has no extension")));
    assert_eq!(open_extension("/w/.png"), Err(s("file has no extension")));
    assert_eq!(
        open_extension("/w/run.sh"),
        Err(s(
            "sh is not an allowed file type (allowed: html, htm, svg, png, jpg, jpeg, pdf, md, \
             txt, rtf, csv)"
        ))
    );
}

// ---- starting a command ----

#[test]
fn a_command_goes_over_the_control_connection() {
    let p = || params(&["id"], &[], None, false);
    let (mut dial, first) = Dial::start(p());
    let url = s("wss://api.sprites.dev/v1/sprites/repo-main/control");
    assert_eq!(first, DialAction::Connect { url, timeout_secs: CONTROL_TIMEOUT_SECS });
    assert_eq!(dial.next(DialEvent::Connected), DialAction::Send(op_start(&p())));
    assert_eq!(dial.next(DialEvent::Sent), DialAction::Run);
    assert_eq!(dial.next(DialEvent::Ended), DialAction::Send(release_message()));
    assert_eq!(dial.next(DialEvent::Failed(s("gone"))), DialAction::Done);
    assert_eq!(dial.step(), DialStep::Over);
    assert_eq!((CONTROL_TIMEOUT_SECS, DIRECT_TIMEOUT_SECS, EXEC_TIMEOUT_SECS), (5, 10, 120));
}

#[test]
fn a_session_keeps_its_control_connection() {
    let (mut dial, _) = Dial::start(params(&["sh"], &[], None, true));
    dial.next(DialEvent::Connected);
    dial.next(DialEvent::Sent);
    assert_eq!(dial.next(DialEvent::Ended), DialAction::Done);
}

#[test]
fn a_command_falls_back_to_its_own_connection() {
    let p = || params(&["id"], &[], None, false);
    let (mut dial, _) = Dial::start(p());
    let url = build_exec_url(&p()).unwrap();
    assert_eq!(
        dial.next(DialEvent::Failed(s("refused"))),
        DialAction::Connect { url, timeout_secs: DIRECT_TIMEOUT_SECS }
    );
    assert_eq!(dial.next(DialEvent::Connected), DialAction::Run);
    assert_eq!(dial.next(DialEvent::Ended), DialAction::Done);
}

#[test]
fn commands_that_do_not_start() {
    let begin = || Dial::start(params(&["id"], &[], None, false)).0;
    let mut dial = begin();
    dial.next(DialEvent::Failed(s("refused")));
    assert_eq!(dial.next(DialEvent::Failed(s("no"))), DialAction::Fail(s("no")));
    let mut dial = begin();
    dial.next(DialEvent::Connected);
    assert_eq!(
        dial.next(DialEvent::Failed(s("no"))),
        DialAction::Fail(s("failed to send op.start: no"))
    );
    let mut dial = begin();
    dial.next(DialEvent::Connected);
    dial.next(DialEvent::Sent);
    assert_eq!(
        dial.next(DialEvent::TimedOut(120)),
        DialAction::Fail(s("exec timed out after 120s"))
    );
    assert_eq!(dial.step(), DialStep::Over);
}

#[test]
fn a_command_fits_in_an_address() {
    let params = ExecParams {
        sprite_name: s("box"),
        cmd: vec!["x".repeat(1 << 20); 4],
        env: Vec::new(),
        dir: None,
        tty: false,
        rows: None,
        cols: None,
    };
    assert!(command_fits(&params));
}

// ---- requests that the user must allow ----

#[test]
fn a_file_is_fetched_once_it_is_allowed() {
    let (mut request, first) = HostRequest::open("/a/Notes.TXT", 7);
    assert_eq!(first, RequestAction::Ask);
    assert_eq!(request.next(RequestEvent::Answered(Some(true))), RequestAction::Fetch);
    assert_eq!(
        request.next(RequestEvent::Went),
        RequestAction::Store(s("spritebox-open-7.txt"))
    );
    assert_eq!(request.next(RequestEvent::Went), RequestAction::Show);
    assert_eq!(request.next(RequestEvent::Went), RequestAction::Done);
}

#[test]
fn an_image_is_sent_once_it_is_allowed() {
    let (mut request, first) = HostRequest::paste(7);
    assert_eq!(first, RequestAction::Ask);
    assert_eq!(
        request.next(RequestEvent::Answered(Some(true))),
        RequestAction::Export(s("spritebox-paste-7.png"))
    );
    assert_eq!(request.next(RequestEvent::Went), RequestAction::Read);
    assert_eq!(request.next(RequestEvent::Went), RequestAction::Send);
    assert_eq!(request.next(RequestEvent::Went), RequestAction::Done);
}

#[test]
fn nothing_happens_without_consent() {
    let (mut request, _) = HostRequest::open("/a.txt", 7);
    assert_eq!(request.next(RequestEvent::Answered(Some(false))), RequestAction::Done);
    assert_eq!(request.next(RequestEvent::Answered(Some(true))), RequestAction::Done);
    let (mut request, _) = HostRequest::open("/a.txt", 7);
    assert_eq!(request.next(RequestEvent::Went), RequestAction::Done);
    let (mut request, _) = HostRequest::paste(7);
    assert_eq!(
        request.next(RequestEvent::Answered(Some(false))),
        RequestAction::Fail(s("clipboard import denied"))
    );
    assert_eq!(request.next(RequestEvent::Went), RequestAction::Done);
    let (mut request, first) = HostRequest::open("/a.exe", 7);
    assert!(matches!(first, RequestAction::Fail(_)));
    assert_eq!(request.next(RequestEvent::Answered(Some(true))), RequestAction::Done);
}

#[test]
fn requests_say_what_went_wrong() {
    let broke = || RequestEvent::Broke(s("no"));
    let open = |n: usize| {
        let (mut request, _) = HostRequest::open("/a.txt", 7);
        for i in 0..n {
            let event =
                if i == 0 { RequestEvent::Answered(Some(true)) } else { RequestEvent::Went };
            request.next(event);
        }
        request
    };
    let fail = |text: &str| RequestAction::Fail(s(text));
    assert_eq!(open(0).next(broke()), fail("failed to prompt for file download: no"));
    assert_eq!(
        open(0).next(RequestEvent::Answered(None)),
        fail("file download prompt failed")
    );
    assert_eq!(open(1).next(broke()), fail("no"));
    assert_eq!(open(2).next(broke()), fail("failed to write temp file: no"));
    assert_eq!(open(3).next(broke()), fail("failed to open file: no"));
    let (mut paste, _) = HostRequest::paste(7);
    assert_eq!(paste.next(broke()), fail("failed to prompt for clipboard access: no"));
    let (mut paste, _) = HostRequest::paste(7);
    assert_eq!(
        paste.next(RequestEvent::Answered(None)),
        fail("clipboard import prompt failed")
    );
    let (mut paste, _) = HostRequest::paste(7);
    paste.next(RequestEvent::Answered(Some(true)));
    paste.next(RequestEvent::Went);
    assert_eq!(paste.next(broke()), fail("failed to read temp image: no"));
}
