//! Data model: validated wire identifiers, the status enumeration with its
//! persisted string form, wires themselves, dependency records, and the
//! error types the engine reports.

use crate::text::{dec_rep, join_view, seq_views, string_from_chars, u64_to_string};
use vstd::prelude::*;
use vstd::string::*;

verus! {

/// Whether `c` is a hexadecimal digit (either case).
pub open spec fn is_hex_digit(c: char) -> bool {
    (48 <= c as u32 && c as u32 <= 57) || (97 <= c as u32 && c as u32 <= 102) || (65 <= c as u32
        && c as u32 <= 70)
}

/// Whether `c` is a lowercase hexadecimal digit.
pub open spec fn is_lower_hex_digit(c: char) -> bool {
    (48 <= c as u32 && c as u32 <= 57) || (97 <= c as u32 && c as u32 <= 102)
}

/// Uppercase hexadecimal letters mapped to lowercase; everything else unchanged.
pub open spec fn lower_hex(c: char) -> char {
    if c == 'A' {
        'a'
    } else if c == 'B' {
        'b'
    } else if c == 'C' {
        'c'
    } else if c == 'D' {
        'd'
    } else if c == 'E' {
        'e'
    } else if c == 'F' {
        'f'
    } else {
        c
    }
}

/// `lower_hex` applied to every character.
pub open spec fn lower_hex_seq(s: Seq<char>) -> Seq<char> {
    Seq::new(s.len(), |i: int| lower_hex(s[i]))
}

/// A wire identifier in valid form: seven lowercase hexadecimal characters.
pub open spec fn valid_id(s: Seq<char>) -> bool {
    s.len() == 7 && forall|i: int| 0 <= i < s.len() ==> is_lower_hex_digit(#[trigger] s[i])
}

/// A validated 7-character hexadecimal wire identifier.
///
/// Wire IDs are generated from a hash of the title and a timestamp,
/// providing uniqueness while staying short enough for human use.
#[derive(Debug, Eq, Hash)]
pub struct WireId(String);

impl View for WireId {
    type V = Seq<char>;

    closed spec fn view(&self) -> Seq<char> {
        self.0@
    }
}

impl Clone for WireId {
    fn clone(&self) -> (r: Self)
        ensures
            r == *self,
    {
        WireId(self.0.clone())
    }
}

impl PartialEq for WireId {
    fn eq(&self, other: &Self) -> (r: bool) {
        self.0 == other.0
    }
}

impl vstd::std_specs::cmp::PartialEqSpecImpl for WireId {
    open spec fn obeys_eq_spec() -> bool {
        true
    }

    open spec fn eq_spec(&self, other: &Self) -> bool {
        self@ == other@
    }
}

/// Error type for invalid wire IDs.
#[derive(Debug, Clone, PartialEq, Eq, Structural)]
pub enum WireIdError {
    /// ID is not exactly 7 characters; carries the length that was seen
    InvalidLength(usize),
    /// ID contains non-hexadecimal characters
    InvalidCharacters,
}

/// The human-readable text for a `WireIdError`.
pub open spec fn wire_id_error_text(e: WireIdError) -> Seq<char> {
    match e {
        WireIdError::InvalidLength(n) => "Wire ID must be 7 characters, got "@ + dec_rep(n as nat),
        WireIdError::InvalidCharacters => "Wire ID must contain only hexadecimal characters"@,
    }
}

impl WireIdError {
    /// Renders the error as the message a user sees.
    pub fn message(&self) -> (r: String)
        ensures
            r@ == wire_id_error_text(*self),
    {
        match self {
            WireIdError::InvalidLength(n) => {
                let base = "Wire ID must be 7 characters, got ".to_owned();
                base.concat(u64_to_string(*n as u64).as_str())
            },
            WireIdError::InvalidCharacters => {
                "Wire ID must contain only hexadecimal characters".to_owned()
            },
        }
    }
}

impl WireId {
    /// Creates a new WireId from a string, validating the format:
    /// exactly seven hexadecimal characters, folded to lowercase.
    pub fn new(s: &str) -> (r: Result<Self, WireIdError>)
        ensures
            r is Ok <==> (s@.len() == 7 && forall|i: int|
                0 <= i < s@.len() ==> is_hex_digit(#[trigger] s@[i])),
            r matches Ok(id) ==> id@ == lower_hex_seq(s@) && valid_id(id@),
            r matches Err(e) ==> wire_id_new_error(s@, e),
    {
        let n = s.unicode_len();
        if n != 7 {
            return Err(WireIdError::InvalidLength(n));
        }
        let mut chars: Vec<char> = Vec::new();
        let mut i: usize = 0;
        while i < 7
            invariant
                s@.len() == 7,
                i <= 7,
                chars@ == lower_hex_seq(s@).take(i as int),
                forall|j: int| 0 <= j < i ==> is_hex_digit(#[trigger] s@[j]),
            decreases 7 - i,
        {
            let c = s.get_char(i);
            let u = c as u32;
            if !((48 <= u && u <= 57) || (97 <= u && u <= 102) || (65 <= u && u <= 70)) {
                return Err(WireIdError::InvalidCharacters);
            }
            let lc = if 65 <= u && u <= 70 {
                match c {
                    'A' => 'a',
                    'B' => 'b',
                    'C' => 'c',
                    'D' => 'd',
                    'E' => 'e',
                    'F' => 'f',
                    _ => c,
                }
            } else {
                c
            };
            assert(lc == lower_hex(c));
            chars.push(lc);
            proof {
                assert(chars@ =~= lower_hex_seq(s@).take(i + 1 as int));
            }
            i = i + 1;
        }
        proof {
            assert(chars@ =~= lower_hex_seq(s@));
            assert forall|j: int| 0 <= j < lower_hex_seq(s@).len() implies is_lower_hex_digit(
                #[trigger] lower_hex_seq(s@)[j],
            ) by {
                assert(is_hex_digit(s@[j]));
            }
        }
        let id_string = string_from_chars(&chars);
        Ok(WireId(id_string))
    }

    /// Creates a WireId without validation.
    ///
    /// The caller must ensure the string is a valid 7-character hex string.
    /// This is intended for use when reading from the backing store, where
    /// data is known to be valid.
    pub fn from_trusted(s: String) -> (r: Self)
        ensures
            r@ == s@,
    {
        WireId(s)
    }

    /// Returns the ID as a string slice.
    pub fn as_str(&self) -> (r: &str)
        ensures
            r@ == self@,
    {
        self.0.as_str()
    }
}

/// Which error `WireId::new` reports for a given input.
pub open spec fn wire_id_new_error(s: Seq<char>, e: WireIdError) -> bool {
    match e {
        WireIdError::InvalidLength(n) => s.len() != 7 && n == s.len(),
        WireIdError::InvalidCharacters => s.len() == 7 && exists|i: int|
            0 <= i < s.len() && !is_hex_digit(#[trigger] s[i]),
    }
}

/// Task status values.
///
/// Wires progress through these states:
/// - `Todo` - Not yet started
/// - `InProgress` - Currently being worked on
/// - `Done` - Completed successfully
/// - `Cancelled` - Abandoned or no longer needed
#[derive(Debug, Clone, Copy, PartialEq, Eq, Structural)]
pub enum Status {
    Todo,
    InProgress,
    Done,
    Cancelled,
}

/// The persisted string form of a status.
pub open spec fn status_label(s: Status) -> Seq<char> {
    match s {
        Status::Todo => "TODO"@,
        Status::InProgress => "IN_PROGRESS"@,
        Status::Done => "DONE"@,
        Status::Cancelled => "CANCELLED"@,
    }
}

/// The one-character marker shown for a status in table output.
pub open spec fn status_symbol(s: Status) -> Seq<char> {
    match s {
        Status::Todo => "○"@,
        Status::InProgress => "◐"@,
        Status::Done => "●"@,
        Status::Cancelled => "✗"@,
    }
}

/// The rank a status sorts by in the readiness listing: work already
/// in progress comes before work not yet started.
pub open spec fn status_rank(s: Status) -> int {
    match s {
        Status::InProgress => 0,
        Status::Todo => 1,
        Status::Done => 2,
        Status::Cancelled => 3,
    }
}

/// Whether a prerequisite with this status blocks its dependents:
/// only Done and Cancelled prerequisites do not.
pub open spec fn spec_is_blocking(s: Status) -> bool {
    s != Status::Done && s != Status::Cancelled
}

/// The persisted string forms are pairwise distinct, so the mapping
/// between statuses and their labels is bidirectional: a label names at
/// most one status.
pub proof fn lemma_status_label_injective(a: Status, b: Status)
    requires
        status_label(a) == status_label(b),
    ensures
        a == b,
{
    reveal_strlit("TODO");
    reveal_strlit("IN_PROGRESS");
    reveal_strlit("DONE");
    reveal_strlit("CANCELLED");
    if a != b {
        assert(("TODO"@).len() == 4);
        assert(("IN_PROGRESS"@).len() == 11);
        assert(("DONE"@).len() == 4);
        assert(("CANCELLED"@).len() == 9);
        assert(("TODO"@)[0] == 'T' && ("DONE"@)[0] == 'D');
        assert(false);
    }
}

impl Status {
    /// Returns the persisted string representation of the status.
    pub fn as_str(&self) -> (r: &str)
        ensures
            r@ == status_label(*self),
    {
        match self {
            Status::Todo => "TODO",
            Status::InProgress => "IN_PROGRESS",
            Status::Done => "DONE",
            Status::Cancelled => "CANCELLED",
        }
    }

    /// Returns the one-character marker for table output.
    pub fn symbol(&self) -> (r: &str)
        ensures
            r@ == status_symbol(*self),
    {
        match self {
            Status::Todo => "○",
            Status::InProgress => "◐",
            Status::Done => "●",
            Status::Cancelled => "✗",
        }
    }

    /// Whether a prerequisite with this status still blocks its dependents.
    pub fn is_blocking(&self) -> (r: bool)
        ensures
            r == spec_is_blocking(*self),
    {
        match self {
            Status::Done => false,
            Status::Cancelled => false,
            _ => true,
        }
    }

    /// The sort rank used by the readiness listing.
    pub fn rank(&self) -> (r: u8)
        ensures
            r as int == status_rank(*self),
    {
        match self {
            Status::InProgress => 0,
            Status::Todo => 1,
            Status::Done => 2,
            Status::Cancelled => 3,
        }
    }

    /// Parses a persisted status label, rejecting unknown strings.
    pub fn parse(s: &str) -> (r: Result<Status, String>)
        ensures
            r matches Ok(st) <==> (s@ == "TODO"@ || s@ == "IN_PROGRESS"@ || s@ == "DONE"@ || s@
                == "CANCELLED"@),
            r matches Ok(st) ==> status_label(st) == s@,
            r matches Err(msg) ==> msg@ == "Invalid status: "@ + s@,
    {
        if crate::text::str_eq(s, "TODO") {
            proof {
                reveal_strlit("TODO");
            }
            Ok(Status::Todo)
        } else if crate::text::str_eq(s, "IN_PROGRESS") {
            proof {
                reveal_strlit("IN_PROGRESS");
            }
            Ok(Status::InProgress)
        } else if crate::text::str_eq(s, "DONE") {
            proof {
                reveal_strlit("DONE");
            }
            Ok(Status::Done)
        } else if crate::text::str_eq(s, "CANCELLED") {
            proof {
                reveal_strlit("CANCELLED");
            }
            Ok(Status::Cancelled)
        } else {
            Err("Invalid status: ".to_owned().concat(s))
        }
    }
}

impl core::str::FromStr for Status {
    type Err = String;

    fn from_str(s: &str) -> Result<Self, String> {
        Status::parse(s)
    }
}

/// A wire (task) in the tracker.
#[derive(Debug)]
pub struct Wire {
    /// Unique 7-character hexadecimal identifier
    pub id: WireId,
    /// Short description of the task
    pub title: String,
    /// Optional detailed description
    pub description: Option<String>,
    /// Current status of the wire
    pub status: Status,
    /// Unix timestamp when the wire was created
    pub created_at: i64,
    /// Unix timestamp when the wire was last updated
    pub updated_at: i64,
    /// Priority level (higher values = higher priority)
    pub priority: i32,
}

impl Clone for Wire {
    fn clone(&self) -> (r: Self)
        ensures
            r == *self,
    {
        Wire {
            id: self.id.clone(),
            title: self.title.clone(),
            description: match &self.description {
                Some(d) => Some(d.clone()),
                None => None,
            },
            status: self.status,
            created_at: self.created_at,
            updated_at: self.updated_at,
            priority: self.priority,
        }
    }
}

/// Summary information about a wire in a dependency relationship.
#[derive(Debug)]
pub struct DependencyInfo {
    /// Wire ID
    pub id: WireId,
    /// Wire title
    pub title: String,
    /// Current status
    pub status: Status,
}

impl Clone for DependencyInfo {
    fn clone(&self) -> (r: Self)
        ensures
            r == *self,
    {
        DependencyInfo { id: self.id.clone(), title: self.title.clone(), status: self.status }
    }
}

/// A wire together with its full dependency information.
#[derive(Debug)]
pub struct WireWithDeps {
    /// The wire itself
    pub wire: Wire,
    /// Wires this wire depends on
    pub depends_on: Vec<DependencyInfo>,
    /// Wires that are blocked by this wire
    pub blocks: Vec<DependencyInfo>,
}

/// Clones a list of dependency summaries element by element.
fn clone_dep_infos(v: &Vec<DependencyInfo>) -> (r: Vec<DependencyInfo>)
    ensures
        r@ == v@,
{
    let mut out: Vec<DependencyInfo> = Vec::new();
    let mut i: usize = 0;
    while i < v.len()
        invariant
            i <= v.len(),
            out@ == v@.take(i as int),
        decreases v.len() - i,
    {
        out.push(v[i].clone());
        proof {
            assert(out@ =~= v@.take(i + 1 as int));
        }
        i = i + 1;
    }
    proof {
        assert(out@ =~= v@);
    }
    out
}

impl Clone for WireWithDeps {
    fn clone(&self) -> (r: Self)
        ensures
            r.wire == self.wire,
            r.depends_on@ == self.depends_on@,
            r.blocks@ == self.blocks@,
    {
        WireWithDeps {
            wire: self.wire.clone(),
            depends_on: clone_dep_infos(&self.depends_on),
            blocks: clone_dep_infos(&self.blocks),
        }
    }
}

/// A dependency relationship between two wires: `wire_id` depends on
/// `depends_on`, so `depends_on` must reach Done before `wire_id` is ready.
#[derive(Debug)]
pub struct Dependency {
    /// The wire that has the dependency
    pub wire_id: WireId,
    /// The wire it depends on
    pub depends_on: WireId,
}

impl Clone for Dependency {
    fn clone(&self) -> (r: Self)
        ensures
            r == *self,
    {
        Dependency { wire_id: self.wire_id.clone(), depends_on: self.depends_on.clone() }
    }
}

/// Domain-specific errors for wire operations.
#[derive(Debug)]
pub enum WireError {
    /// The repository was not found in any parent directory
    NotARepository,
    /// A wires repository already exists at the given location
    AlreadyInitialized(String),
    /// The specified wire ID does not exist
    WireNotFound(String),
    /// Adding this dependency would create a circular dependency chain;
    /// carries one concrete path that would close the loop
    CircularDependency(Vec<String>),
}

impl Clone for WireError {
    fn clone(&self) -> (r: Self)
        ensures
            r is NotARepository <==> self is NotARepository,
            r is AlreadyInitialized <==> self is AlreadyInitialized,
            r is WireNotFound <==> self is WireNotFound,
            r is CircularDependency <==> self is CircularDependency,
            r matches WireError::AlreadyInitialized(p) ==> (self matches
                WireError::AlreadyInitialized(q) && p == q),
            r matches WireError::WireNotFound(p) ==> (self matches WireError::WireNotFound(q) && p
                == q),
            r matches WireError::CircularDependency(p) ==> (self matches
                WireError::CircularDependency(q) && p@ == q@),
    {
        match self {
            WireError::NotARepository => WireError::NotARepository,
            WireError::AlreadyInitialized(p) => WireError::AlreadyInitialized(p.clone()),
            WireError::WireNotFound(p) => WireError::WireNotFound(p.clone()),
            WireError::CircularDependency(p) => {
                let r = WireError::CircularDependency(p.clone());
                proof {
                    assert(r matches WireError::CircularDependency(q) && q@ =~= p@);
                }
                r
            },
        }
    }
}

/// The human-readable text for a `WireError`.
pub open spec fn wire_error_text(e: WireError) -> Seq<char> {
    match e {
        WireError::NotARepository => "Not a wires repository"@,
        WireError::AlreadyInitialized(p) => "Wires already initialized at "@ + p@,
        WireError::WireNotFound(id) => "Wire not found: "@ + id@,
        WireError::CircularDependency(cycle) => "Circular dependency detected: "@ + join_view(
            seq_views(cycle@),
            " -> "@,
        ),
    }
}

impl WireError {
    /// Renders the error as the message a user sees.
    pub fn message(&self) -> (r: String)
        ensures
            r@ == wire_error_text(*self),
    {
        match self {
            WireError::NotARepository => "Not a wires repository".to_owned(),
            WireError::AlreadyInitialized(p) => {
                "Wires already initialized at ".to_owned().concat(p.as_str())
            },
            WireError::WireNotFound(id) => "Wire not found: ".to_owned().concat(id.as_str()),
            WireError::CircularDependency(cycle) => {
                "Circular dependency detected: ".to_owned().concat(
                    crate::text::join_with(cycle, " -> ").as_str(),
                )
            },
        }
    }
}

} // verus!
