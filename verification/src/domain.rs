//! The data model of the graph engine: association kinds and the error
//! taxonomy shared by every operation.

use vstd::prelude::*;
use vstd::slice::slice_to_vec;
use crate::ids::NoteId;

verus! {

/// The kinds of typed directed edges the engine accepts.
#[derive(Clone, Copy, PartialEq, Eq, Structural, Debug)]
pub enum AssociationKind {
    Link,
    Reply,
    Quote,
    Parent,
    Child,
    Next,
    Prev,
    Version,
    Author,
}

impl AssociationKind {
    /// The token under which this kind travels outside the engine.
    pub open spec fn token(self) -> Seq<char> {
        match self {
            AssociationKind::Link => "link"@,
            AssociationKind::Reply => "reply"@,
            AssociationKind::Quote => "quote"@,
            AssociationKind::Parent => "parent"@,
            AssociationKind::Child => "child"@,
            AssociationKind::Next => "next"@,
            AssociationKind::Prev => "prev"@,
            AssociationKind::Version => "version"@,
            AssociationKind::Author => "author"@,
        }
    }

    pub fn as_str(&self) -> (r: &'static str)
        ensures
            r@ == self.token(),
    {
        match self {
            AssociationKind::Link => "link",
            AssociationKind::Reply => "reply",
            AssociationKind::Quote => "quote",
            AssociationKind::Parent => "parent",
            AssociationKind::Child => "child",
            AssociationKind::Next => "next",
            AssociationKind::Prev => "prev",
            AssociationKind::Version => "version",
            AssociationKind::Author => "author",
        }
    }

    /// Whether an edge of this kind may connect notes of different authors.
    pub open spec fn spec_allows_cross_author(self) -> bool {
        self == AssociationKind::Link || self == AssociationKind::Reply || self
            == AssociationKind::Quote
    }
}

/// Edges of these kinds may connect notes of different authors; every other
/// kind stays within a single author's notes.
pub fn allows_cross_author(kind: AssociationKind) -> (r: bool)
    ensures
        r == kind.spec_allows_cross_author(),
{
    match kind {
        AssociationKind::Link => true,
        AssociationKind::Reply => true,
        AssociationKind::Quote => true,
        _ => false,
    }
}

/// The distinguishing error values of the engine, so callers can map each
/// failure to its own response.
#[derive(Clone, Copy, PartialEq, Eq, Structural, Debug)]
pub enum EngineError {
    /// A referenced note does not exist.
    NotFound,
    /// A version edge already exists for the resolved head.
    VersionConflict,
    /// The input was rejected before any write.
    InvalidInput,
    /// Any other store-level failure.
    StorageError,
}

/// The store's own refusal when a conditional version insert finds an
/// existing version edge.
#[derive(Clone, Copy, PartialEq, Eq, Structural, Debug)]
pub enum AssociationInsertError {
    VersionExists,
}

/// The mathematical shape of a note: what its fields denote.
#[verifier::ext_equal]
pub ghost struct NoteV {
    pub id: Seq<u8>,
    pub value: Seq<u8>,
    pub created_at: nat,
    pub author: u128,
}

/// An immutable content unit: at most 1024 bytes of content, born once and
/// never changed.  `created_at` is the store's logical creation time.
#[derive(Clone, PartialEq, Eq, Debug)]
pub struct Note {
    pub id: NoteId,
    pub value: Vec<u8>,
    pub created_at: u64,
    pub author: u128,
}

impl View for Note {
    type V = NoteV;

    open spec fn view(&self) -> NoteV {
        NoteV {
            id: self.id@,
            value: self.value@,
            created_at: self.created_at as nat,
            author: self.author,
        }
    }
}

impl Note {
    /// An owned copy with the same meaning.
    pub fn duplicate(&self) -> (r: Note)
        ensures
            r@ == self@,
    {
        Note {
            id: self.id,
            value: slice_to_vec(self.value.as_slice()),
            created_at: self.created_at,
            author: self.author,
        }
    }
}

/// The mathematical shape of an association.
#[verifier::ext_equal]
pub ghost struct AssociationV {
    pub kind: AssociationKind,
    pub from_id: Seq<u8>,
    pub to_id: Seq<u8>,
    pub created_at: nat,
}

/// A typed directed edge between two notes, born once and never changed.
/// `created_at` is the store's logical creation time.
#[derive(Clone, Copy, PartialEq, Eq, Debug)]
pub struct Association {
    pub kind: AssociationKind,
    pub from_id: NoteId,
    pub to_id: NoteId,
    pub created_at: u64,
}

impl View for Association {
    type V = AssociationV;

    open spec fn view(&self) -> AssociationV {
        AssociationV {
            kind: self.kind,
            from_id: self.from_id@,
            to_id: self.to_id@,
            created_at: self.created_at as nat,
        }
    }
}

/// An authenticated caller, as the engine needs to see one: an identity,
/// and the identifier of the account-bootstrap note if one exists.
#[derive(Clone, PartialEq, Eq, Debug)]
pub struct User {
    pub user_id: u128,
    pub email: String,
    pub account_note_id: Option<NoteId>,
}

/// The account-bootstrap note a chain is anchored to; a caller without one
/// cannot publish chains.
pub fn account_note_id(user: &User) -> (r: Result<NoteId, EngineError>)
    ensures
        r is Ok <==> user.account_note_id is Some,
        r is Ok ==> r->Ok_0 == user.account_note_id->0,
        r is Err ==> r->Err_0 == EngineError::StorageError,
{
    match &user.account_note_id {
        Some(id) => Ok(*id),
        None => Err(EngineError::StorageError),
    }
}

} // verus!
