//! Routing helpers for the small static HTTP front end that lives beside the
//! key-value server. Only the pure path logic is here: reading the request,
//! reading files and writing the response bytes are the caller's concern.

use vstd::prelude::*;
use vstd::string::*;
use vstd::utf8::encode_utf8;

verus! {

/// A routed response: status code, optional body, and content type.
pub struct Response {
    pub status_code: String,
    pub body: Option<String>,
    pub content_type: String,
}

/// Whether `s` starts with the characters of `pat`.
fn str_has_prefix(s: &str, pat: &str) -> (r: bool)
    ensures
        r == (s@.len() >= pat@.len() && s@.subrange(0, pat@.len() as int) == pat@),
{
    let n = s.unicode_len();
    let m = pat.unicode_len();
    if n < m {
        return false;
    }
    let mut i: usize = 0;
    while i < m
        invariant
            i <= m,
            m == pat@.len(),
            n == s@.len(),
            m <= n,
            forall|j: int| 0 <= j < i ==> s@[j] == pat@[j],
        decreases m - i,
    {
        if s.get_char(i) != pat.get_char(i) {
            assert(s@.subrange(0, pat@.len() as int)[i as int] != pat@[i as int]);
            return false;
        }
        i = i + 1;
    }
    assert(s@.subrange(0, pat@.len() as int) =~= pat@);
    true
}

/// The file name a `/files/...` request path denotes: everything after the
/// prefix.
pub fn get_filename_from_path(path: String) -> (r: String)
    requires
        path@.len() >= 7,
        path@.subrange(0, 7) == "/files/"@,
    ensures
        r@ == path@.subrange(7, path@.len() as int),
{
    let s = path.as_str();
    let n = s.unicode_len();
    let sub = s.substring_char(7, n);
    sub.to_owned()
}

/// The response for the root path: a bare success.
pub fn create_home_response() -> (r: Response)
    ensures
        r.status_code@ == "200"@,
        r.body is None,
        r.content_type@ == ""@,
{
    Response {
        status_code: String::from_str("200"),
        body: None,
        content_type: String::from_str(""),
    }
}

/// The response for an unknown path.
pub fn create_not_found_response() -> (r: Response)
    ensures
        r.status_code@ == "404"@,
        r.body is None,
        r.content_type@ == ""@,
{
    Response {
        status_code: String::from_str("404"),
        body: None,
        content_type: String::from_str(""),
    }
}

/// The response for `/echo/...`: the rest of the path, echoed as plain text.
pub fn create_echo_response(path: String) -> (r: Response)
    requires
        path@.len() >= 6,
        path@.subrange(0, 6) == "/echo/"@,
    ensures
        r.status_code@ == "200"@,
        r.body matches Some(b) && b@ == path@.subrange(6, path@.len() as int),
        r.content_type@ == "text/plain"@,
{
    let s = path.as_str();
    let n = s.unicode_len();
    let body = s.substring_char(6, n).to_owned();
    Response {
        status_code: String::from_str("200"),
        body: Some(body),
        content_type: String::from_str("text/plain"),
    }
}

/// The position of the first `User-Agent:` header token at or after `i`, or
/// the length when there is none.
pub open spec fn ua_index(lines: Seq<String>, i: int) -> int
    decreases lines.len() - i,
{
    if !(0 <= i < lines.len()) {
        lines.len() as int
    } else if lines[i]@ == "User-Agent:"@ {
        i
    } else {
        ua_index(lines, i + 1)
    }
}

/// The response for `/user-agent`: the token after the first `User-Agent:`
/// header token, echoed as plain text.
pub fn create_user_agent_response(lines: &Vec<String>) -> (r: Response)
    requires
        ua_index(lines@, 0) + 1 < lines@.len(),
    ensures
        r.status_code@ == "200"@,
        r.body matches Some(b) && b@ == lines@[ua_index(lines@, 0) + 1]@,
        r.content_type@ == "text/plain"@,
{
    let ghost target = ua_index(lines@, 0);
    let n = lines.len();
    let mut i: usize = 0;
    proof {
        reveal_strlit("User-Agent:");
    }
    while !(lines[i].as_str().unicode_len() == 11 && str_has_prefix(
        lines[i].as_str(),
        "User-Agent:",
    ))
        invariant
            n == lines@.len(),
            0 <= i < n,
            target == ua_index(lines@, i as int),
            target + 1 < lines@.len(),
        decreases lines@.len() - i,
    {
        proof {
            reveal_strlit("User-Agent:");
            assert(lines@[i as int]@ != "User-Agent:"@) by {
                if lines@[i as int]@ == "User-Agent:"@ {
                    assert(lines@[i as int]@.len() == 11);
                    assert(lines@[i as int]@.subrange(0, 11) =~= "User-Agent:"@);
                }
            }
            assert(ua_index(lines@, i as int) == ua_index(lines@, i + 1));
        }
        i = i + 1;
        proof {
            assert(i < lines@.len()) by {
                if i >= lines@.len() {
                    assert(ua_index(lines@, i as int) == lines@.len());
                }
            }
        }
    }
    proof {
        reveal_strlit("User-Agent:");
        assert(lines@[i as int]@ =~= "User-Agent:"@) by {
            assert(lines@[i as int]@.subrange(0, 11) == "User-Agent:"@);
            assert(lines@[i as int]@.len() == 11);
            assert(lines@[i as int]@.subrange(0, 11) =~= lines@[i as int]@);
        }
        assert(target == i);
    }
    let body = String::from_str(lines[i + 1].as_str());
    Response {
        status_code: String::from_str("200"),
        body: Some(body),
        content_type: String::from_str("text/plain"),
    }
}

/// Whether `s` starts with the characters of `p`.
pub open spec fn chars_have_prefix(s: Seq<char>, p: Seq<char>) -> bool {
    s.len() >= p.len() && s.subrange(0, p.len() as int) == p
}

/// Two patterns that differ at some index are never both prefixes.
proof fn lemma_prefixes_conflict(s: Seq<char>, p: Seq<char>, q: Seq<char>, i: int)
    requires
        0 <= i < p.len(),
        i < q.len(),
        p[i] != q[i],
        chars_have_prefix(s, p),
    ensures
        !chars_have_prefix(s, q),
{
    if chars_have_prefix(s, q) {
        assert(s.subrange(0, p.len() as int)[i] == p[i]);
        assert(s.subrange(0, q.len() as int)[i] == q[i]);
    }
}

/// Routes one GET request by its path. The body of an existing `/files/...`
/// target is passed in by the caller, which is the only party that reads
/// the file system.
pub fn handle_get(lines: &Vec<String>, path: String, file_content: Option<String>) -> (r: Response)
    requires
        chars_have_prefix(path@, "/user-agent"@) ==> ua_index(lines@, 0) + 1 < lines@.len(),
    ensures
        path@ == "/"@ ==> r.status_code@ == "200"@ && r.body is None,
        chars_have_prefix(path@, "/echo/"@) ==> r.status_code@ == "200"@ && (r.body matches Some(b)
            && b@ == path@.subrange(6, path@.len() as int)) && r.content_type@ == "text/plain"@,
        chars_have_prefix(path@, "/user-agent"@) ==> r.status_code@ == "200"@ && (r.body
            matches Some(b) && b@ == lines@[ua_index(lines@, 0) + 1]@) && r.content_type@
            == "text/plain"@,
        chars_have_prefix(path@, "/files/"@) ==> match file_content {
            Some(c) => r.status_code@ == "200"@ && (r.body matches Some(b) && b@ == c@)
                && r.content_type@ == "application/octet-stream"@,
            None => r.status_code@ == "404"@ && r.body is None,
        },
        (path@ != "/"@ && !chars_have_prefix(path@, "/echo/"@) && !chars_have_prefix(
            path@,
            "/user-agent"@,
        ) && !chars_have_prefix(path@, "/files/"@)) ==> r.status_code@ == "404"@ && r.body is None,
{
    proof {
        reveal_strlit("/");
        reveal_strlit("/echo/");
        reveal_strlit("/user-agent");
        reveal_strlit("/files/");
    }
    let s_is_root = path.as_str().unicode_len() == 1 && str_has_prefix(path.as_str(), "/");
    proof {
        if s_is_root {
            assert(path@.subrange(0, 1) =~= path@);
            assert(path@ == "/"@);
        }
        if path@ == "/"@ {
            assert(path@.len() == 1);
            assert(path@.subrange(0, 1) =~= "/"@);
        }
    }
    if s_is_root {
        let r = create_home_response();
        return r;
    }
    if str_has_prefix(path.as_str(), "/echo/") {
        proof {
            lemma_prefixes_conflict(path@, "/echo/"@, "/user-agent"@, 1);
            lemma_prefixes_conflict(path@, "/echo/"@, "/files/"@, 1);
        }
        return create_echo_response(path);
    }
    if str_has_prefix(path.as_str(), "/user-agent") {
        proof {
            lemma_prefixes_conflict(path@, "/user-agent"@, "/echo/"@, 1);
            lemma_prefixes_conflict(path@, "/user-agent"@, "/files/"@, 1);
        }
        return create_user_agent_response(lines);
    }
    if str_has_prefix(path.as_str(), "/files/") {
        proof {
            lemma_prefixes_conflict(path@, "/files/"@, "/echo/"@, 1);
            lemma_prefixes_conflict(path@, "/files/"@, "/user-agent"@, 1);
        }
        return match file_content {
            Some(content) => Response {
                status_code: String::from_str("200"),
                body: Some(content),
                content_type: String::from_str("application/octet-stream"),
            },
            None => create_not_found_response(),
        };
    }
    create_not_found_response()
}


/// The decimal digit characters of `n`, most significant first.
pub open spec fn dec_chars(n: nat) -> Seq<char> {
    crate::codec::dec_digits(n).map_values(|b: u8| b as char)
}

/// Appends the decimal digits of `n` to `out`.
fn append_dec(n: u64, out: &mut String)
    ensures
        final(out)@ == old(out)@ + dec_chars(n as nat),
    decreases n,
{
    let digits = "0123456789";
    proof {
        reveal_strlit("0123456789");
        assert(digits.is_ascii());
    }
    if n < 10 {
        let d = n as usize;
        let ds = digits.substring_ascii(d, d + 1);
        out.append(ds);
        proof {
            assert(ds@ =~= seq![digits@[n as int]]);
            assert(dec_chars(n as nat) =~= seq![((48 + n) as u8) as char]);
            assert(out@ =~= old(out)@ + dec_chars(n as nat));
        }
    } else {
        append_dec(n / 10, out);
        let ghost mid = out@;
        let d = (n % 10) as usize;
        let ds = digits.substring_ascii(d, d + 1);
        out.append(ds);
        proof {
            assert(ds@ =~= seq![digits@[(n % 10) as int]]);
            assert(dec_chars(n as nat) =~= dec_chars((n / 10) as nat) + seq![
                ((48 + n % 10) as u8) as char,
            ]) by {
                crate::codec::lemma_dec_digits_wf((n / 10) as nat);
            }
            assert(out@ =~= old(out)@ + dec_chars(n as nat));
        }
    }
}

/// Writes a routed response as HTTP text. A response without a body is a
/// bare status line; one with a body carries its content type and its
/// length in bytes (the length of the body's UTF-8 encoding).
pub fn generate_response(response: Response) -> (r: String)
    ensures
        response.body is None ==> r@ == "HTTP/1.1 "@ + response.status_code@ + " OK\r\n\r\n"@,
        response.body matches Some(b) ==> r@ == "HTTP/1.1 "@ + response.status_code@
            + "\r\nContent-Type: "@ + response.content_type@ + "\r\nContent-Length: "@
            + dec_chars(encode_utf8(b@).len()) + "\r\n\r\n"@ + b@ + "\r\n"@,
{
    let mut out = String::from_str("HTTP/1.1 ");
    out.append(response.status_code.as_str());
    match response.body {
        None => {
            out.append(" OK\r\n\r\n");
        },
        Some(b) => {
            out.append("\r\nContent-Type: ");
            out.append(response.content_type.as_str());
            out.append("\r\nContent-Length: ");
            let n = b.as_str().as_bytes().len();
            assert(n == encode_utf8(b@).len());
            append_dec(n as u64, &mut out);
            out.append("\r\n\r\n");
            out.append(b.as_str());
            out.append("\r\n");
        },
    }
    out
}

} // verus!
