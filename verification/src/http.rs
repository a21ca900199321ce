//! Plain HTTP/1.1 response values and their wire encoding.

use vstd::prelude::*;
use vstd::slice::slice_to_vec;
use vstd::string::{StringExecFns, StrSliceExecFns};
use vstd::utf8::encode_utf8;
use crate::text::{dec_str, fmt_u64};

verus! {

/// A response: status code, header fields in order, and the body bytes.
pub struct Response {
    pub status: u16,
    pub headers: Vec<(String, String)>,
    pub body: Vec<u8>,
}

/// The reason phrase for a status code; `OK` for anything unknown.
pub open spec fn spec_status_text(code: u16) -> Seq<char> {
    if code == 200 {
        "OK"@
    } else if code == 201 {
        "Created"@
    } else if code == 400 {
        "Bad Request"@
    } else if code == 401 {
        "Unauthorized"@
    } else if code == 403 {
        "Forbidden"@
    } else if code == 404 {
        "Not Found"@
    } else if code == 409 {
        "Conflict"@
    } else if code == 413 {
        "Payload Too Large"@
    } else if code == 422 {
        "Unprocessable Entity"@
    } else if code == 500 {
        "Internal Server Error"@
    } else {
        "OK"@
    }
}

/// The reason phrase for a status code.
pub fn status_text(code: u16) -> (r: &'static str)
    ensures
        r@ == spec_status_text(code),
{
    match code {
        200 => "OK",
        201 => "Created",
        400 => "Bad Request",
        401 => "Unauthorized",
        403 => "Forbidden",
        404 => "Not Found",
        409 => "Conflict",
        413 => "Payload Too Large",
        422 => "Unprocessable Entity",
        500 => "Internal Server Error",
        _ => "OK",
    }
}

/// One header field on the wire.
pub open spec fn header_chars(h: (String, String)) -> Seq<char> {
    h.0@ + ": "@ + h.1@ + "\r\n"@
}

/// The response head on the wire: status line, header fields, blank line.
pub open spec fn head_chars(status: u16, headers: Seq<(String, String)>) -> Seq<char> {
    "HTTP/1.1 "@ + dec_str(status as nat) + " "@ + spec_status_text(status) + "\r\n"@
        + headers.map_values(|h: (String, String)| header_chars(h)).flatten() + "\r\n"@
}

impl Response {
    /// A response carrying a JSON body.
    pub fn json(status: u16, body: Vec<u8>) -> (r: Response)
        ensures
            r.status == status,
            r.body@ == body@,
            r.headers@.len() == 3,
            header_chars(r.headers@[0]) == "Content-Type"@ + ": "@ + "application/json"@
                + "\r\n"@,
            header_chars(r.headers@[1]) == "Connection"@ + ": "@ + "keep-alive"@ + "\r\n"@,
            header_chars(r.headers@[2]) == "Content-Length"@ + ": "@ + dec_str(body@.len() as nat)
                + "\r\n"@,
    {
        let mut headers: Vec<(String, String)> = Vec::new();
        headers.push((String::from_str("Content-Type"), String::from_str("application/json")));
        headers.push((String::from_str("Connection"), String::from_str("keep-alive")));
        headers.push((String::from_str("Content-Length"), fmt_u64(body.len() as u64)));
        Response { status, headers, body }
    }

    /// A response with an empty body.
    pub fn empty(status: u16) -> (r: Response)
        ensures
            r.status == status,
            r.body@ == Seq::<u8>::empty(),
            r.headers@.len() == 3,
            header_chars(r.headers@[0]) == "Content-Type"@ + ": "@ + "application/json"@
                + "\r\n"@,
            header_chars(r.headers@[1]) == "Connection"@ + ": "@ + "keep-alive"@ + "\r\n"@,
            header_chars(r.headers@[2]) == "Content-Length"@ + ": "@ + "0"@ + "\r\n"@,
    {
        let mut headers: Vec<(String, String)> = Vec::new();
        headers.push((String::from_str("Content-Type"), String::from_str("application/json")));
        headers.push((String::from_str("Connection"), String::from_str("keep-alive")));
        headers.push((String::from_str("Content-Length"), String::from_str("0")));
        let body: Vec<u8> = Vec::new();
        proof {
            assert(body@ =~= Seq::<u8>::empty());
        }
        Response { status, headers, body }
    }

    /// A response carrying an HTML page.
    pub fn html(page: String) -> (r: Response)
        ensures
            r.status == 200,
            r.body@ == encode_utf8(page@),
            r.headers@.len() == 3,
            header_chars(r.headers@[0]) == "Content-Type"@ + ": "@
                + "text/html; charset=utf-8"@ + "\r\n"@,
            header_chars(r.headers@[1]) == "Connection"@ + ": "@ + "keep-alive"@ + "\r\n"@,
            header_chars(r.headers@[2]) == "Content-Length"@ + ": "@ + dec_str(
                encode_utf8(page@).len() as nat,
            ) + "\r\n"@,
    {
        let body = page.as_str().as_bytes_vec();
        let mut headers: Vec<(String, String)> = Vec::new();
        headers.push(
            (String::from_str("Content-Type"), String::from_str("text/html; charset=utf-8")),
        );
        headers.push((String::from_str("Connection"), String::from_str("keep-alive")));
        headers.push((String::from_str("Content-Length"), fmt_u64(body.len() as u64)));
        Response { status: 200, headers, body }
    }

    /// The whole response on the wire: the head encoded as UTF-8, then the
    /// body bytes.
    pub fn to_bytes(&self) -> (r: Vec<u8>)
        ensures
            r@ == encode_utf8(head_chars(self.status, self.headers@)) + self.body@,
    {
        let mut head = String::new();
        head.append("HTTP/1.1 ");
        let status_digits = fmt_u64(self.status as u64);
        head.append(status_digits.as_str());
        head.append(" ");
        head.append(status_text(self.status));
        head.append("\r\n");
        let ghost status_line = "HTTP/1.1 "@ + dec_str(self.status as nat) + " "@
            + spec_status_text(self.status) + "\r\n"@;
        proof {
            assert(head@ =~= status_line);
        }
        let n = self.headers.len();
        let mut i: usize = 0;
        proof {
            assert(self.headers@.take(0).map_values(|h: (String, String)| header_chars(h)).flatten()
                =~= Seq::<char>::empty());
            assert(head@ + Seq::<char>::empty() =~= head@);
        }
        while i < n
            invariant
                0 <= i <= n,
                n == self.headers@.len(),
                status_line == "HTTP/1.1 "@ + dec_str(self.status as nat) + " "@
                    + spec_status_text(self.status) + "\r\n"@,
                head@ == status_line + self.headers@.take(i as int).map_values(
                    |h: (String, String)| header_chars(h),
                ).flatten(),
            decreases n - i,
        {
            let ghost before = head@;
            head.append(self.headers[i].0.as_str());
            head.append(": ");
            head.append(self.headers[i].1.as_str());
            head.append("\r\n");
            proof {
                assert(head@ =~= before + header_chars(self.headers@[i as int]));
                let taken = self.headers@.take(i as int).map_values(
                    |h: (String, String)| header_chars(h),
                );
                taken.lemma_flatten_push(header_chars(self.headers@[i as int]));
                assert(self.headers@.take(i + 1).map_values(
                    |h: (String, String)| header_chars(h),
                ) =~= taken.push(header_chars(self.headers@[i as int])));
                assert(head@ =~= status_line + self.headers@.take(i + 1).map_values(
                    |h: (String, String)| header_chars(h),
                ).flatten());
            }
            i += 1;
        }
        head.append("\r\n");
        proof {
            assert(self.headers@.take(n as int) =~= self.headers@);
            assert(head@ =~= head_chars(self.status, self.headers@));
        }
        let mut out = head.as_str().as_bytes_vec();
        let mut tail = slice_to_vec(self.body.as_slice());
        out.append(&mut tail);
        out
    }
}

} // verus!
