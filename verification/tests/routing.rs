use minikv::http::{
    create_echo_response, create_home_response, create_not_found_response,
    create_user_agent_response, generate_response, get_filename_from_path, handle_get, Response,
};

#[test]
fn filename_is_the_path_after_the_files_prefix() {
    assert_eq!(get_filename_from_path("/files/notes.txt".to_string()), "notes.txt");
    assert_eq!(get_filename_from_path("/files/".to_string()), "");
}

#[test]
fn home_and_not_found_responses() {
    let home = create_home_response();
    assert_eq!(home.status_code, "200");
    assert!(home.body.is_none());
    let missing = create_not_found_response();
    assert_eq!(missing.status_code, "404");
    assert!(missing.body.is_none());
}

#[test]
fn echo_response_carries_the_path_suffix() {
    let r = create_echo_response("/echo/abc".to_string());
    assert_eq!(r.status_code, "200");
    assert_eq!(r.body, Some("abc".to_string()));
    assert_eq!(r.content_type, "text/plain");
}

#[test]
fn user_agent_response_takes_the_token_after_the_header() {
    let lines = vec![
        "GET".to_string(),
        "/user-agent".to_string(),
        "User-Agent:".to_string(),
        "curl/7.64.1".to_string(),
    ];
    let r = create_user_agent_response(&lines);
    assert_eq!(r.status_code, "200");
    assert_eq!(r.body, Some("curl/7.64.1".to_string()));
}

#[test]
fn get_routes_by_path() {
    let lines = vec![
        "GET".to_string(),
        "/user-agent".to_string(),
        "User-Agent:".to_string(),
        "tester".to_string(),
    ];
    let home = handle_get(&lines, "/".to_string(), None);
    assert_eq!(home.status_code, "200");
    assert!(home.body.is_none());
    let echoed = handle_get(&lines, "/echo/hey".to_string(), None);
    assert_eq!(echoed.body, Some("hey".to_string()));
    let ua = handle_get(&lines, "/user-agent".to_string(), None);
    assert_eq!(ua.body, Some("tester".to_string()));
    let found = handle_get(&lines, "/files/a.txt".to_string(), Some("data".to_string()));
    assert_eq!(found.status_code, "200");
    assert_eq!(found.body, Some("data".to_string()));
    assert_eq!(found.content_type, "application/octet-stream");
    let missing = handle_get(&lines, "/files/a.txt".to_string(), None);
    assert_eq!(missing.status_code, "404");
    let unknown = handle_get(&lines, "/nope".to_string(), None);
    assert_eq!(unknown.status_code, "404");
}

#[test]
fn response_without_a_body_is_a_bare_status_line() {
    let r = generate_response(create_not_found_response());
    assert_eq!(r, "HTTP/1.1 404 OK\r\n\r\n");
}

#[test]
fn response_with_a_body_carries_type_and_length() {
    let r = generate_response(Response {
        status_code: "200".to_string(),
        body: Some("abc".to_string()),
        content_type: "text/plain".to_string(),
    });
    assert_eq!(
        r,
        "HTTP/1.1 200\r\nContent-Type: text/plain\r\nContent-Length: 3\r\n\r\nabc\r\n"
    );
    let long = generate_response(Response {
        status_code: "200".to_string(),
        body: Some("twelve chars".to_string()),
        content_type: "text/plain".to_string(),
    });
    assert_eq!(
        long,
        "HTTP/1.1 200\r\nContent-Type: text/plain\r\nContent-Length: 12\r\n\r\ntwelve chars\r\n"
    );
}

#[test]
fn content_length_counts_bytes_not_characters() {
    // A one-character, two-byte body must report length 2.
    let r = generate_response(Response {
        status_code: "200".to_string(),
        body: Some("\u{e9}".to_string()),
        content_type: "text/plain".to_string(),
    });
    assert_eq!(
        r,
        "HTTP/1.1 200\r\nContent-Type: text/plain\r\nContent-Length: 2\r\n\r\n\u{e9}\r\n"
    );
}
