//! The rules guarding edge creation: which kind tokens are accepted, who
//! may link which notes, and the policy-acceptance check for new sessions.

use vstd::prelude::*;
use vstd::string::StrSliceExecFns;
use crate::domain::{AssociationKind, EngineError, Note, User};
use crate::text::{push_char, str_eq};

verus! {

/// The Unicode white-space code points, as `char::is_whitespace` knows
/// them.
pub open spec fn is_ws(c: char) -> bool {
    ||| (9 <= c as u32 && c as u32 <= 13)
    ||| c as u32 == 32
    ||| c as u32 == 0x85
    ||| c as u32 == 0xA0
    ||| c as u32 == 0x1680
    ||| (0x2000 <= c as u32 && c as u32 <= 0x200A)
    ||| c as u32 == 0x2028
    ||| c as u32 == 0x2029
    ||| c as u32 == 0x202F
    ||| c as u32 == 0x205F
    ||| c as u32 == 0x3000
}

/// Whether the character is Unicode white space.
pub fn is_whitespace_char(c: char) -> (r: bool)
    ensures
        r == is_ws(c),
{
    let u = c as u32;
    (9 <= u && u <= 13) || u == 32 || u == 0x85 || u == 0xA0 || u == 0x1680 || (0x2000 <= u && u
        <= 0x200A) || u == 0x2028 || u == 0x2029 || u == 0x202F || u == 0x205F || u == 0x3000
}

/// The sequence without its leading white space.
pub open spec fn trim_start_spec(s: Seq<char>) -> Seq<char>
    decreases s.len(),
{
    if s.len() > 0 && is_ws(s[0]) {
        trim_start_spec(s.drop_first())
    } else {
        s
    }
}

/// The sequence without its trailing white space.
pub open spec fn trim_end_spec(s: Seq<char>) -> Seq<char>
    decreases s.len(),
{
    if s.len() > 0 && is_ws(s.last()) {
        trim_end_spec(s.drop_last())
    } else {
        s
    }
}

/// The sequence without leading and trailing white space.
pub open spec fn trim_spec(s: Seq<char>) -> Seq<char> {
    trim_end_spec(trim_start_spec(s))
}

/// Skipping exactly the leading white space is trimming the start.
proof fn lemma_trim_start_skip(s: Seq<char>, a: int)
    requires
        0 <= a <= s.len(),
        forall|j: int| 0 <= j < a ==> is_ws(#[trigger] s[j]),
        a < s.len() ==> !is_ws(s[a]),
    ensures
        trim_start_spec(s) =~= s.skip(a),
    decreases a,
{
    if a == 0 {
        assert(s.skip(0) =~= s);
    } else {
        assert(is_ws(s[0]));
        assert(s.drop_first() =~= s.skip(1));
        lemma_trim_start_skip(s.drop_first(), a - 1);
        assert(s.drop_first().skip(a - 1) =~= s.skip(a));
    }
}

/// Cutting exactly the trailing white space is trimming the end.
proof fn lemma_trim_end_take(s: Seq<char>, b: int)
    requires
        0 <= b <= s.len(),
        forall|j: int| b <= j < s.len() ==> is_ws(#[trigger] s[j]),
        b > 0 ==> !is_ws(s[b - 1]),
    ensures
        trim_end_spec(s) =~= s.take(b),
    decreases s.len() - b,
{
    if b == s.len() {
        assert(s.take(b) =~= s);
    } else {
        assert(is_ws(s.last()));
        assert(s.drop_last() =~= s.take(s.len() - 1));
        lemma_trim_end_take(s.take(s.len() - 1), b);
        assert(s.take(s.len() - 1).take(b) =~= s.take(b));
    }
}

/// The trimmed text: leading and trailing white space removed.
pub fn trim_str(value: &str) -> (r: String)
    ensures
        r@ == trim_spec(value@),
{
    let n = value.unicode_len();
    let mut a: usize = 0;
    while a < n && is_whitespace_char(value.get_char(a))
        invariant
            0 <= a <= n,
            n == value@.len(),
            forall|j: int| 0 <= j < a ==> is_ws(#[trigger] value@[j]),
        decreases n - a,
    {
        a += 1;
    }
    proof {
        lemma_trim_start_skip(value@, a as int);
    }
    let mut b: usize = n;
    while b > a && is_whitespace_char(value.get_char(b - 1))
        invariant
            a <= b <= n,
            n == value@.len(),
            forall|j: int| 0 <= j < a ==> is_ws(#[trigger] value@[j]),
            a < n ==> !is_ws(value@[a as int]),
            forall|j: int| b <= j < n ==> is_ws(#[trigger] value@[j]),
        decreases b,
    {
        b -= 1;
    }
    proof {
        let t = value@.skip(a as int);
        assert forall|j: int| (b - a) <= j < t.len() implies is_ws(#[trigger] t[j]) by {
            assert(t[j] == value@[j + a]);
        }
        if b > a {
            assert(t[b - a - 1] == value@[b - 1]);
        }
        lemma_trim_end_take(t, b - a);
    }
    let mut out = String::new();
    let mut i: usize = a;
    while i < b
        invariant
            a <= i <= b <= n,
            n == value@.len(),
            out@ =~= value@.skip(a as int).take((i - a) as int),
        decreases b - i,
    {
        push_char(&mut out, value.get_char(i));
        proof {
            assert(out@ =~= value@.skip(a as int).take((i + 1 - a) as int));
        }
        i += 1;
    }
    out
}

/// Reads an association kind token: the value trimmed, refused when empty
/// or when white space remains inside it.
pub fn parse_kind(value: &str) -> (r: Result<String, EngineError>)
    ensures
        r is Ok <==> trim_spec(value@).len() > 0 && (forall|i: int|
            0 <= i < trim_spec(value@).len() ==> !is_ws(#[trigger] trim_spec(value@)[i])),
        r is Ok ==> r->Ok_0@ == trim_spec(value@),
        r is Err ==> r->Err_0 == EngineError::InvalidInput,
{
    let trimmed = trim_str(value);
    let n = trimmed.as_str().unicode_len();
    if n == 0 {
        return Err(EngineError::InvalidInput);
    }
    let mut i: usize = 0;
    while i < n
        invariant
            0 <= i <= n,
            n == trimmed@.len(),
            trimmed@ == trim_spec(value@),
            forall|j: int| 0 <= j < i ==> !is_ws(#[trigger] trimmed@[j]),
        decreases n - i,
    {
        if is_whitespace_char(trimmed.as_str().get_char(i)) {
            return Err(EngineError::InvalidInput);
        }
        i += 1;
    }
    Ok(trimmed)
}

/// Whether the token names a kind that callers may create.
pub open spec fn spec_is_allowed_kind(s: Seq<char>) -> bool {
    ||| s == "link"@
    ||| s == "reply"@
    ||| s == "quote"@
    ||| s == "parent"@
    ||| s == "child"@
    ||| s == "next"@
    ||| s == "prev"@
    ||| s == "version"@
}

/// Whether the token names one of the kinds callers may create: `author`
/// edges are written only by the chain builder itself.
pub fn is_allowed_kind(kind: &str) -> (r: bool)
    ensures
        r == spec_is_allowed_kind(kind@),
{
    str_eq(kind, "link") || str_eq(kind, "reply") || str_eq(kind, "quote") || str_eq(
        kind,
        "parent",
    ) || str_eq(kind, "child") || str_eq(kind, "next") || str_eq(kind, "prev") || str_eq(
        kind,
        "version",
    )
}

/// The kind a token names, for the tokens callers may create.
pub fn kind_from_token(kind: &str) -> (r: Option<AssociationKind>)
    ensures
        r is Some <==> spec_is_allowed_kind(kind@),
        r is Some ==> r->0.token() == kind@,
{
    if str_eq(kind, "link") {
        Some(AssociationKind::Link)
    } else if str_eq(kind, "reply") {
        Some(AssociationKind::Reply)
    } else if str_eq(kind, "quote") {
        Some(AssociationKind::Quote)
    } else if str_eq(kind, "parent") {
        Some(AssociationKind::Parent)
    } else if str_eq(kind, "child") {
        Some(AssociationKind::Child)
    } else if str_eq(kind, "next") {
        Some(AssociationKind::Next)
    } else if str_eq(kind, "prev") {
        Some(AssociationKind::Prev)
    } else if str_eq(kind, "version") {
        Some(AssociationKind::Version)
    } else {
        None
    }
}

/// Whether the note is the caller's account-bootstrap note.
pub open spec fn spec_is_account_note(user: User, note: Note) -> bool {
    user.account_note_id is Some && user.account_note_id->0@ == note.id@
}

/// Whether the note is the caller's account-bootstrap note.
pub fn is_account_note(user: &User, note: &Note) -> (r: bool)
    ensures
        r == spec_is_account_note(*user, *note),
{
    match &user.account_note_id {
        Some(id) => id.eq_id(&note.id),
        None => false,
    }
}

/// Why an edge creation request was refused.
#[derive(Clone, Copy, PartialEq, Eq, Structural, Debug)]
pub enum AssociationDenied {
    /// The caller does not own the source note.
    NotOwner,
    /// The source note is the caller's account note, which creates no edges.
    FromAccountNote,
    /// The target of a version edge is the caller's account note.
    VersionOfAccountNote,
    /// The kind does not cross authors, but the notes' authors differ.
    CrossAuthor,
}

/// The ownership rules a caller-requested edge must satisfy, checked before
/// any write: the caller owns the source note, the source is not the
/// caller's account note, a version edge never targets the caller's account
/// note, and a kind that does not cross authors connects only notes of one
/// author.
pub fn ensure_association_allowed(
    kind: AssociationKind,
    from_note: &Note,
    to_note: &Note,
    user: &User,
) -> (r: Result<(), AssociationDenied>)
    ensures
        r is Ok <==> from_note.author == user.user_id && !spec_is_account_note(*user, *from_note)
            && !(kind == AssociationKind::Version && spec_is_account_note(*user, *to_note)) && (
        kind.spec_allows_cross_author() || from_note.author == to_note.author),
        r is Err ==> r->Err_0 == (if from_note.author != user.user_id {
            AssociationDenied::NotOwner
        } else if spec_is_account_note(*user, *from_note) {
            AssociationDenied::FromAccountNote
        } else if kind == AssociationKind::Version && spec_is_account_note(*user, *to_note) {
            AssociationDenied::VersionOfAccountNote
        } else {
            AssociationDenied::CrossAuthor
        }),
{
    if from_note.author != user.user_id {
        return Err(AssociationDenied::NotOwner);
    }
    if is_account_note(user, from_note) {
        return Err(AssociationDenied::FromAccountNote);
    }
    if matches!(kind, AssociationKind::Version) && is_account_note(user, to_note) {
        return Err(AssociationDenied::VersionOfAccountNote);
    }
    if !crate::domain::allows_cross_author(kind) && from_note.author != to_note.author {
        return Err(AssociationDenied::CrossAuthor);
    }
    Ok(())
}

/// The policy version new sessions must have accepted.
pub const POLICY_VERSION: &'static str = "2025-02-01";

/// A caller's statement of having accepted the usage policy.
pub struct PolicyAcceptance {
    pub accepted: bool,
    pub version: String,
    pub agreed_at: Option<String>,
}

/// A session is issued only to a caller who accepted the current policy
/// version; anything else is refused before any work.
pub fn require_policy(acceptance: Option<&PolicyAcceptance>) -> (r: Result<(), EngineError>)
    ensures
        r is Ok <==> acceptance is Some && acceptance->0.accepted && acceptance->0.version@
            == POLICY_VERSION@,
        r is Err ==> r->Err_0 == EngineError::InvalidInput,
{
    match acceptance {
        Some(acceptance) => {
            if acceptance.accepted && str_eq(acceptance.version.as_str(), POLICY_VERSION) {
                Ok(())
            } else {
                Err(EngineError::InvalidInput)
            }
        },
        None => Err(EngineError::InvalidInput),
    }
}

} // verus!
