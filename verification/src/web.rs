//! The web-facing helpers around the engine: HTML escaping, note excerpts,
//! page rendering from the runtime configuration, and the note-page slug.

use vstd::prelude::*;
use vstd::string::{StringExecFns, StrSliceExecFns};
use crate::domain::{Association, AssociationKind};
use crate::http::Response;
use crate::ids::{is_base32_url, spec_is_base32_url, NoteId};
use crate::text::push_char;

verus! {

/// The runtime configuration the pages and handlers read.
pub struct Config {
    pub bind_addr: String,
    pub database_url: String,
    pub google_client_id: String,
    pub public_base_url: String,
    pub session_ttl_secs: i64,
    pub run_migrations: bool,
    pub migrations_path: String,
}

/// What one character becomes in escaped HTML text or attribute values.
pub open spec fn escape_char(c: char) -> Seq<char> {
    if c == '&' {
        "&amp;"@
    } else if c == '"' {
        "&quot;"@
    } else if c == '<' {
        "&lt;"@
    } else if c == '>' {
        "&gt;"@
    } else if c == '\'' {
        "&#39;"@
    } else {
        seq![c]
    }
}

/// A text with every markup-significant character escaped.
pub open spec fn escape_seq(s: Seq<char>) -> Seq<char> {
    s.map_values(|c: char| escape_char(c)).flatten()
}

/// Escapes a value for an HTML attribute: `&`, `"`, `<`, `>` and `'`
/// become character references, every other character stays itself.
pub fn escape_attr(value: &str) -> (r: String)
    ensures
        r@ == escape_seq(value@),
{
    let n = value.unicode_len();
    let mut out = String::new();
    let mut i: usize = 0;
    proof {
        assert(value@.take(0).map_values(|c: char| escape_char(c)).flatten() =~= Seq::<
            char,
        >::empty());
        assert(out@ =~= Seq::<char>::empty());
    }
    while i < n
        invariant
            0 <= i <= n,
            n == value@.len(),
            out@ == escape_seq(value@.take(i as int)),
        decreases n - i,
    {
        let c = value.get_char(i);
        let ghost before = out@;
        if c == '&' {
            out.append("&amp;");
        } else if c == '"' {
            out.append("&quot;");
        } else if c == '<' {
            out.append("&lt;");
        } else if c == '>' {
            out.append("&gt;");
        } else if c == '\'' {
            out.append("&#39;");
        } else {
            push_char(&mut out, c);
            proof {
                assert(out@ =~= before + seq![c]);
            }
        }
        proof {
            let taken = value@.take(i as int).map_values(|c: char| escape_char(c));
            taken.lemma_flatten_push(escape_char(value@[i as int]));
            assert(value@.take(i + 1).map_values(|c: char| escape_char(c)) =~= taken.push(
                escape_char(value@[i as int]),
            ));
            assert(out@ =~= escape_seq(value@.take(i + 1)));
        }
        i += 1;
    }
    proof {
        assert(value@.take(n as int) =~= value@);
    }
    out
}

/// Escapes a value for HTML text; the same escaping as for attributes.
pub fn escape_html(value: &str) -> (r: String)
    ensures
        r@ == escape_seq(value@),
{
    escape_attr(value)
}

/// The characters of an excerpt: the first `budget` characters of the
/// text, line breaks dropped.
pub open spec fn excerpt_chars(s: Seq<char>, budget: nat) -> Seq<char>
    decreases s.len(),
{
    if budget == 0 || s.len() == 0 {
        Seq::empty()
    } else if s[0] == '\n' || s[0] == '\r' {
        excerpt_chars(s.drop_first(), budget)
    } else {
        seq![s[0]] + excerpt_chars(s.drop_first(), (budget - 1) as nat)
    }
}

/// A short single-line excerpt of a note's text: at most `max_len`
/// characters with line breaks dropped, `...` appended when the text is
/// longer than `max_len` characters, and `Empty note` when nothing
/// remains.
pub fn note_excerpt(value: &str, max_len: usize) -> (r: String)
    ensures
        r@ == ({
            let excerpt = excerpt_chars(value@, max_len as nat);
            if excerpt.len() == 0 {
                "Empty note"@
            } else if value@.len() > max_len {
                excerpt + "..."@
            } else {
                excerpt
            }
        }),
{
    let n = value.unicode_len();
    let mut out = String::new();
    let mut count: usize = 0;
    let mut i: usize = 0;
    proof {
        assert(value@.skip(0) =~= value@);
        assert(out@ + excerpt_chars(value@, max_len as nat) =~= excerpt_chars(
            value@,
            max_len as nat,
        ));
    }
    while i < n && count < max_len
        invariant
            0 <= i <= n,
            n == value@.len(),
            count <= max_len,
            out@.len() == count,
            excerpt_chars(value@, max_len as nat) == out@ + excerpt_chars(
                value@.skip(i as int),
                (max_len - count) as nat,
            ),
        decreases n - i,
    {
        let c = value.get_char(i);
        proof {
            assert(value@.skip(i as int)[0] == value@[i as int]);
            assert(value@.skip(i as int).drop_first() =~= value@.skip(i + 1));
        }
        if c != '\n' && c != '\r' {
            let ghost before = out@;
            push_char(&mut out, c);
            count += 1;
            proof {
                assert(out@ =~= before + seq![c]);
                assert(before + (seq![c] + excerpt_chars(
                    value@.skip(i + 1),
                    (max_len - count) as nat,
                )) =~= out@ + excerpt_chars(value@.skip(i + 1), (max_len - count) as nat));
            }
        }
        i += 1;
    }
    proof {
        if i >= n {
            assert(value@.skip(n as int) =~= Seq::<char>::empty());
            assert(excerpt_chars(Seq::<char>::empty(), (max_len - count) as nat) =~= Seq::<
                char,
            >::empty());
        }
        assert(out@ =~= excerpt_chars(value@, max_len as nat));
    }
    if out.as_str().unicode_len() == 0 {
        return String::from_str("Empty note");
    }
    if n > max_len {
        out.append("...");
    }
    out
}

/// The label under which an association is shown beside the center note.
pub fn association_label(association: &Association, center_id: &NoteId) -> (r: String)
    ensures
        r@ == (if association.kind == AssociationKind::Version {
            if association.from_id@ == center_id@ {
                "Newer version"@
            } else {
                "Older version"@
            }
        } else if association.kind == AssociationKind::Reply {
            if association.from_id@ == center_id@ {
                "Reply to"@
            } else {
                "Reply from"@
            }
        } else {
            association.kind.token()
        }),
{
    match association.kind {
        AssociationKind::Version => {
            if association.from_id.eq_id(center_id) {
                String::from_str("Newer version")
            } else {
                String::from_str("Older version")
            }
        },
        AssociationKind::Reply => {
            if association.from_id.eq_id(center_id) {
                String::from_str("Reply to")
            } else {
                String::from_str("Reply from")
            }
        },
        _ => String::from_str(association.kind.as_str()),
    }
}

/// The note identifier named by a request path, when the path is exactly
/// `/` followed by an identifier's text form.
pub fn note_slug(path: &str) -> (r: Option<String>)
    ensures
        r is Some <==> path@.len() >= 1 && path@[0] == '/' && spec_is_base32_url(
            path@.drop_first(),
        ),
        r is Some ==> r->0@ == path@.drop_first(),
{
    let n = path.unicode_len();
    if n == 0 || path.get_char(0) != '/' {
        return None;
    }
    let mut rest = String::new();
    let mut i: usize = 1;
    while i < n
        invariant
            1 <= i <= n,
            n == path@.len(),
            rest@ =~= path@.drop_first().take(i - 1),
        decreases n - i,
    {
        push_char(&mut rest, path.get_char(i));
        proof {
            assert(path@.drop_first()[i - 1] == path@[i as int]);
            assert(rest@ =~= path@.drop_first().take(i as int));
        }
        i += 1;
    }
    proof {
        assert(path@.drop_first().take(n - 1) =~= path@.drop_first());
    }
    if is_base32_url(rest.as_str()) {
        Some(rest)
    } else {
        None
    }
}

/// The login redirect target the pages embed.
pub fn login_uri(config: &Config) -> (r: String)
    ensures
        r@ == config.public_base_url@ + "/auth/google/redirect"@,
{
    let mut out = config.public_base_url.clone();
    out.append("/auth/google/redirect");
    out
}

/// The home page for a given view, with the sign-in client wired in.
pub fn render_home(client_id: &str, login: &str, view: &str) -> (r: String)
    ensures
        r@ == "<!doctype html><html lang=\"en\"><head><meta charset=\"utf-8\"><title>notegraph</title></head><body data-view=\""@
            + escape_seq(view@) + "\"><div id=\"app\" data-client-id=\""@ + escape_seq(client_id@)
            + "\" data-login-uri=\""@ + escape_seq(login@)
            + "\"></div><script src=\"/assets/app.js\"></script></body></html>"@,
{
    let mut out = String::from_str(
        "<!doctype html><html lang=\"en\"><head><meta charset=\"utf-8\"><title>notegraph</title></head><body data-view=\"",
    );
    let view_esc = escape_attr(view);
    out.append(view_esc.as_str());
    out.append("\"><div id=\"app\" data-client-id=\"");
    let client_esc = escape_attr(client_id);
    out.append(client_esc.as_str());
    out.append("\" data-login-uri=\"");
    let login_esc = escape_attr(login);
    out.append(login_esc.as_str());
    out.append("\"></div><script src=\"/assets/app.js\"></script></body></html>");
    out
}

/// The sign-in page, with the sign-in client wired in.
pub fn render_signin(client_id: &str, login: &str) -> (r: String)
    ensures
        r@ == "<!doctype html><html lang=\"en\"><head><meta charset=\"utf-8\"><title>Sign in</title></head><body><div id=\"signin\" data-client-id=\""@
            + escape_seq(client_id@) + "\" data-login-uri=\""@ + escape_seq(login@)
            + "\"></div><script src=\"/assets/signin.js\"></script></body></html>"@,
{
    let mut out = String::from_str(
        "<!doctype html><html lang=\"en\"><head><meta charset=\"utf-8\"><title>Sign in</title></head><body><div id=\"signin\" data-client-id=\"",
    );
    let client_esc = escape_attr(client_id);
    out.append(client_esc.as_str());
    out.append("\" data-login-uri=\"");
    let login_esc = escape_attr(login);
    out.append(login_esc.as_str());
    out.append("\"></div><script src=\"/assets/signin.js\"></script></body></html>");
    out
}

/// The home page for the configured site.
pub fn home_html(config: &Config) -> (r: String)
    ensures
        r@ == "<!doctype html><html lang=\"en\"><head><meta charset=\"utf-8\"><title>notegraph</title></head><body data-view=\""@
            + escape_seq("home"@) + "\"><div id=\"app\" data-client-id=\""@ + escape_seq(
            config.google_client_id@,
        ) + "\" data-login-uri=\""@ + escape_seq(
            config.public_base_url@ + "/auth/google/redirect"@,
        ) + "\"></div><script src=\"/assets/app.js\"></script></body></html>"@,
{
    let login = login_uri(config);
    render_home(config.google_client_id.as_str(), login.as_str(), "home")
}

/// The sign-in page for the configured site.
pub fn signin_html(config: &Config) -> (r: String)
    ensures
        r@ == "<!doctype html><html lang=\"en\"><head><meta charset=\"utf-8\"><title>Sign in</title></head><body><div id=\"signin\" data-client-id=\""@
            + escape_seq(config.google_client_id@) + "\" data-login-uri=\""@ + escape_seq(
            config.public_base_url@ + "/auth/google/redirect"@,
        ) + "\"></div><script src=\"/assets/signin.js\"></script></body></html>"@,
{
    let login = login_uri(config);
    render_signin(config.google_client_id.as_str(), login.as_str())
}

/// The page a fresh session lands on: it stores the session token and
/// sends the browser to the sanitized target.
pub fn redirect_html(token: &str, target: &str) -> (r: String)
    ensures
        r@ == "<!doctype html><html lang=\"en\"><head><meta charset=\"utf-8\"><title>notegraph</title></head><body data-session-token=\""@
            + escape_seq(token@) + "\" data-redirect-target=\""@ + escape_seq(target@)
            + "\"><script src=\"/assets/redirect.js\"></script></body></html>"@,
{
    let mut out = String::from_str(
        "<!doctype html><html lang=\"en\"><head><meta charset=\"utf-8\"><title>notegraph</title></head><body data-session-token=\"",
    );
    let token_esc = escape_attr(token);
    out.append(token_esc.as_str());
    out.append("\" data-redirect-target=\"");
    let target_esc = escape_attr(target);
    out.append(target_esc.as_str());
    out.append("\"><script src=\"/assets/redirect.js\"></script></body></html>");
    out
}

/// The home page as a response.
pub fn home(config: &Config) -> (r: Response)
    ensures
        r.status == 200,
        r.body@ == vstd::utf8::encode_utf8(
            "<!doctype html><html lang=\"en\"><head><meta charset=\"utf-8\"><title>notegraph</title></head><body data-view=\""@
                + escape_seq("home"@) + "\"><div id=\"app\" data-client-id=\""@ + escape_seq(
                config.google_client_id@,
            ) + "\" data-login-uri=\""@ + escape_seq(
                config.public_base_url@ + "/auth/google/redirect"@,
            ) + "\"></div><script src=\"/assets/app.js\"></script></body></html>"@,
        ),
{
    Response::html(home_html(config))
}

/// The sign-in page as a response.
pub fn signin(config: &Config) -> (r: Response)
    ensures
        r.status == 200,
        r.body@ == vstd::utf8::encode_utf8(
            "<!doctype html><html lang=\"en\"><head><meta charset=\"utf-8\"><title>Sign in</title></head><body><div id=\"signin\" data-client-id=\""@
                + escape_seq(config.google_client_id@) + "\" data-login-uri=\""@ + escape_seq(
                config.public_base_url@ + "/auth/google/redirect"@,
            ) + "\"></div><script src=\"/assets/signin.js\"></script></body></html>"@,
        ),
{
    Response::html(signin_html(config))
}

} // verus!
