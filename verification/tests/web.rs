use rookery::web::{
    GameSession, Request, RequestHead, Response, WebAssets, clamp_depth, json_escape,
    json_number_field, json_string_field, optional_depth, render_response, route,
};

fn assets() -> WebAssets {
    WebAssets {
        index: "<html></html>".to_string(),
        style: "body {}".to_string(),
        app: "main();".to_string(),
    }
}

fn request(method: &str, path: &str, body: &str) -> Request {
    Request { method: method.into(), path: path.into(), body: body.into() }
}

#[test]
fn state_contains_starting_legal_moves() {
    let mut session = GameSession::new(3);
    let state = session.state_json();
    assert!(state.contains("\"fen\":\"rnbqkbnr/pppppppp"));
    assert!(state.contains("\"e2e4\""));
    assert!(state.contains("\"status\":\"Your move\""));
}

#[test]
fn legal_human_move_gets_engine_reply() {
    let mut session = GameSession::new(1);
    session.play_human_move("e2e4").unwrap();
    let state = session.state_json();
    assert!(state.contains("\"moves\":[\"e2e4\","));
    assert!(state.contains("\"sideToMove\":\"white\""));
}

#[test]
fn routes_reject_bad_moves_and_unknown_assets() {
    let mut session = GameSession::new(1);
    let bad = route(
        &mut session,
        &Request {
            method: "POST".into(),
            path: "/api/move".into(),
            body: r#"{"move":"e2e5"}"#.into(),
        },
        &assets(),
    );
    assert_eq!(bad.status, 400);
    let hidden = route(
        &mut session,
        &Request { method: "GET".into(), path: "/Cargo.toml".into(), body: String::new() },
        &assets(),
    );
    assert_eq!(hidden.status, 404);
}

#[test]
fn depth_input_is_bounded() {
    assert_eq!(optional_depth(r#"{"depth":6}"#), Ok(Some(6)));
    assert!(optional_depth(r#"{"depth":7}"#).is_err());
    assert!(optional_depth(r#"{"depth":"3"}"#).is_err());
}

#[test]
fn depth_errors_name_the_problem() {
    assert_eq!(optional_depth("   "), Ok(None));
    assert_eq!(optional_depth(r#"{"depth": 3 }"#), Ok(Some(3)));
    assert_eq!(
        optional_depth(r#"{"other":3}"#),
        Err("Expected JSON with a numeric depth field.".to_string())
    );
    assert_eq!(optional_depth(r#"{"depth":300}"#), Err("Depth must be a whole number.".to_string()));
    assert_eq!(optional_depth(r#"{"depth":0}"#), Err("Depth must be between 1 and 6.".to_string()));
}

#[test]
fn depth_is_clamped() {
    assert_eq!(clamp_depth(0), 1);
    assert_eq!(clamp_depth(4), 4);
    assert_eq!(clamp_depth(200), 6);
    let mut session = GameSession::new(0);
    assert!(session.state_json().contains("\"depth\":1,"));
    session.reset(Some(9));
    assert!(session.state_json().contains("\"depth\":6,"));
}

#[test]
fn json_fields_are_extracted() {
    assert_eq!(json_string_field(r#" {"move" : "E2E4"} "#, "move"), Some("e2e4".to_string()));
    assert_eq!(json_string_field(r#"{"move":"e2-e4"}"#, "move"), None);
    assert_eq!(json_string_field(r#"{"move":e2e4}"#, "move"), None);
    assert_eq!(json_string_field(r#"["move","e2e4"]"#, "move"), None);
    assert_eq!(json_number_field(r#"{"depth": 42 }"#, "depth"), Some("42".to_string()));
    assert_eq!(json_number_field(r#"{"depth":-1}"#, "depth"), None);
}

#[test]
fn json_text_is_escaped() {
    assert_eq!(json_escape("a\"b\\c\nd"), "a\\\"b\\\\c\\nd");
    let error = Response::error(400, "bad \"move\"");
    assert_eq!(error.body, "{\"error\":\"bad \\\"move\\\"\"}");
    assert_eq!(error.content_type, "application/json; charset=utf-8");
}

#[test]
fn routes_serve_assets_state_and_unknown_api() {
    let mut session = GameSession::new(2);
    let page = route(&mut session, &request("GET", "/", ""), &assets());
    assert_eq!((page.status, page.body.as_str()), (200, "<html></html>"));
    assert_eq!(page.content_type, "text/html; charset=utf-8");
    let css = route(&mut session, &request("GET", "/style.css", ""), &assets());
    assert_eq!(css.body, "body {}");
    let js = route(&mut session, &request("GET", "/app.js", ""), &assets());
    assert_eq!(js.content_type, "application/javascript; charset=utf-8");
    let state = route(&mut session, &request("GET", "/api/state", ""), &assets());
    assert_eq!(state.status, 200);
    assert_eq!(state.body, session.state_json());
    let unknown = route(&mut session, &request("GET", "/api/nothing", ""), &assets());
    assert_eq!((unknown.status, unknown.body.as_str()), (404, "{\"error\":\"Unknown API endpoint.\"}"));
    let missing = route(&mut session, &request("POST", "/api/move", "{}"), &assets());
    assert_eq!(missing.body, "{\"error\":\"Expected JSON with a string move field.\"}");
    let fresh = route(&mut session, &request("POST", "/api/new", "{\"depth\":4}"), &assets());
    assert_eq!(fresh.status, 200);
    assert!(fresh.body.contains("\"depth\":4,"));
}

#[test]
fn human_move_errors() {
    let mut session = GameSession::new(1);
    assert_eq!(
        session.play_human_move("xx"),
        Err("Move must be a UCI move such as e2e4.".to_string())
    );
    assert_eq!(
        session.play_human_move("e2e5"),
        Err("That move is not legal in the current position.".to_string())
    );
    assert!(session.state_json().contains("\"moves\":[]"));
}

#[test]
fn request_head_is_checked() {
    let mut head = RequestHead::from_request_line("POST /api/move HTTP/1.1\r\n").unwrap();
    assert_eq!(head.add_header_line("Host: localhost\r\n"), Ok(false));
    assert_eq!(head.add_header_line("content-LENGTH:  15 \r\n"), Ok(false));
    assert_eq!(head.add_header_line("\r\n"), Ok(true));
    assert_eq!(head.body_length(), Ok(15));
    let req = head.into_request("{\"move\":\"e2e4\"}".to_string());
    assert_eq!((req.method.as_str(), req.path.as_str()), ("POST", "/api/move"));

    assert_eq!(
        RequestHead::from_request_line("GET /\r\n").err(),
        Some("Malformed request line.".to_string())
    );
    for line in [
        "PUT / HTTP/1.1\r\n",
        "GET /a?b HTTP/1.1\r\n",
        "GET /../x HTTP/1.1\r\n",
        "GET x HTTP/1.1\r\n",
        "GET / HTTP/1.0\r\n",
        "GET / HTTP/1.1 extra\r\n",
    ] {
        assert_eq!(
            RequestHead::from_request_line(line).err(),
            Some("Malformed request.".to_string()),
            "{line}"
        );
    }
    let mut head = RequestHead::from_request_line("GET / HTTP/1.1\n").unwrap();
    assert_eq!(
        head.add_header_line("Content-Length: ten\n"),
        Err("Invalid Content-Length.".to_string())
    );
    let mut head = RequestHead::from_request_line("GET / HTTP/1.1\n").unwrap();
    assert_eq!(head.add_header_line("Content-Length: 2000\n"), Ok(false));
    assert_eq!(head.body_length(), Err("Request body is too large.".to_string()));
    let long = format!("GET /{} HTTP/1.1\r\n", "a".repeat(20_000));
    assert_eq!(
        RequestHead::from_request_line(&long).err(),
        Some("Request header is too large.".to_string())
    );
}

#[test]
fn responses_are_rendered_with_byte_lengths() {
    let response = Response::text(200, "é!", "text/plain; charset=utf-8");
    assert_eq!(
        render_response(&response),
        "HTTP/1.1 200 OK\r\nContent-Type: text/plain; charset=utf-8\r\nContent-Length: 3\r\nCache-Control: no-store\r\nConnection: close\r\n\r\né!"
    );
    let missing = Response::error(404, "x");
    assert!(render_response(&missing).starts_with("HTTP/1.1 404 Not Found\r\n"));
}
