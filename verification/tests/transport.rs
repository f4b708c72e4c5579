//! What goes over the wire to a tool server, and what comes back.

use joy::transport::{
    find_in_stream, first_line, judge_line, notify_outcome, output_of_pieces, reply_of_fields,
    request_outcome, tool_text, unwrap_message, LineVerdict, RequestIds, ToolMeta, NO_ARGUMENTS,
};

#[test]
fn stdio_session_frames_json_lines_and_skips_foreign_messages() {
    assert_eq!(judge_line("not json", 1), LineVerdict::Skip);
    assert_eq!(
        judge_line(r#"{"jsonrpc":"2.0","method":"notifications/x"}"#, 1),
        LineVerdict::Skip
    );
    assert_eq!(
        judge_line(r#"{"jsonrpc":"2.0","id":7,"result":{}}"#, 1),
        LineVerdict::Skip
    );
    assert_eq!(
        judge_line(r#"{"jsonrpc":"2.0","id":1,"result":{"ok":true}}"#, 1),
        LineVerdict::Reply(Ok(r#"{"ok":true}"#.to_string()))
    );
    assert_eq!(judge_line("", 1), LineVerdict::Skip);
}

#[test]
fn an_error_in_a_reply_is_a_failure() {
    let reply = unwrap_message(r#"{"id":1,"error":{"code":-32601,"message":"no such"}}"#);
    assert_eq!(reply, Err("no such (-32601)".to_string()));
    assert_eq!(
        unwrap_message(r#"{"id":1,"error":null,"result":3}"#),
        Ok("3".to_string())
    );
    assert_eq!(unwrap_message(r#"{"id":1}"#), Ok("null".to_string()));
    assert_eq!(
        reply_of_fields(Some("{}".to_string()), None, None, None),
        Err("（没有说明） ()".to_string())
    );
}

#[test]
fn http_session_reads_sse() {
    let stream = "event: message\ndata: {\"id\":2,\"result\":1}\n\nevent: message\ndata: {\"id\":1,\"result\":{\"a\":1}}\n\n";
    assert_eq!(
        request_outcome(200, "text/event-stream; charset=utf-8", stream, 1),
        Ok(r#"{"a":1}"#.to_string())
    );
    assert_eq!(
        find_in_stream(stream, 1).as_deref(),
        Some("{\"id\":1,\"result\":{\"a\":1}}")
    );
    assert_eq!(
        request_outcome(200, "text/event-stream", stream, 9),
        Err("SSE 流里没有我们要的那个应答".to_string())
    );
}

#[test]
fn http_failure_reports_the_status_code() {
    assert_eq!(
        request_outcome(401, "application/json", "Unauthorized\n<html>", 1),
        Err("HTTP 401：Unauthorized".to_string())
    );
    assert_eq!(notify_outcome(202, ""), Ok(()));
    assert_eq!(
        notify_outcome(500, "boom"),
        Err("HTTP 500：boom".to_string())
    );
    assert_eq!(first_line(&"x".repeat(300)).len(), 200);
}

#[test]
fn a_body_is_read_alone_or_as_a_batch() {
    assert_eq!(
        request_outcome(200, "application/json", r#"{"id":1,"result":5}"#, 1),
        Ok("5".to_string())
    );
    assert_eq!(
        request_outcome(
            200,
            "application/json",
            r#"[{"id":2,"result":1},{"id":1,"result":6}]"#,
            1
        ),
        Ok("6".to_string())
    );
    assert_eq!(
        request_outcome(200, "application/json", "[]", 1),
        Err("回话里没有我们要的那个应答".to_string())
    );
    assert!(request_outcome(200, "application/json", "", 1).is_err());
    assert!(request_outcome(200, "application/json", "oops", 1)
        .unwrap_err()
        .starts_with("回话不是 JSON："));
}

#[test]
fn a_tools_output_becomes_text() {
    assert_eq!(
        tool_text(r#"{"content":[{"type":"text","text":"a"},{"type":"image"}]}"#),
        Ok("a\n[非文本内容]".to_string())
    );
    assert_eq!(tool_text(r#"{"content":[]}"#), Ok("(没有输出)".to_string()));
    assert_eq!(
        tool_text(r#"{"isError":true,"content":[{"text":"bad"}]}"#),
        Err("bad".to_string())
    );
    assert_eq!(
        output_of_pieces(&vec![Some("x".to_string()), None], true),
        Err("x\n[非文本内容]".to_string())
    );
}

#[test]
fn request_numbers_never_repeat() {
    let mut ids = RequestIds::new();
    let first = ids.take();
    let second = ids.take();
    assert_eq!(second, first + 1);
}

#[test]
fn a_tool_without_a_schema_takes_nothing() {
    let bare = ToolMeta {
        name: "t".to_string(),
        description: None,
        input_schema: None,
    };
    assert_eq!(bare.schema(), NO_ARGUMENTS);
    let own = ToolMeta {
        input_schema: Some("{\"type\":\"object\"}".to_string()),
        ..bare
    };
    assert_eq!(own.schema(), "{\"type\":\"object\"}");
}
