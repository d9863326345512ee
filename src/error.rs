//! The error kinds that every store operation reports, and their rendering
//! as text and as a flat record for callers across a process boundary.
use vstd::prelude::*;

verus! {

/// Every failure of a store operation falls into one of these kinds.
#[derive(Debug)]
pub enum DatabaseError {
    NotFound { entity: &'static str, id: i64 },
    InvalidData { field: &'static str, reason: String },
    CircularReference { group_id: i64, parent_id: i64 },
    ForeignKeyViolation { field: &'static str, referenced_id: i64 },
    DatabaseLocked,
    ConnectionFailed,
    Internal(String),
}

pub type Result<T> = core::result::Result<T, DatabaseError>;

pub const CONNECTION_FAILED_MESSAGE: &'static str = "Database connection poisoned by previous panic";

pub const DATABASE_LOCKED_MESSAGE: &'static str = "Database is locked by another process. Please try again.";

/// The character of a decimal digit.
pub open spec fn digit_char(d: nat) -> char {
    if d == 0 { '0' }
    else if d == 1 { '1' }
    else if d == 2 { '2' }
    else if d == 3 { '3' }
    else if d == 4 { '4' }
    else if d == 5 { '5' }
    else if d == 6 { '6' }
    else if d == 7 { '7' }
    else if d == 8 { '8' }
    else { '9' }
}

/// The decimal digits of a natural number, most significant first.
pub open spec fn decimal_nat(n: nat) -> Seq<char>
    decreases n,
{
    if n < 10 {
        seq![digit_char(n)]
    } else {
        decimal_nat(n / 10) + seq![digit_char(n % 10)]
    }
}

/// The decimal rendering of an integer, with a leading minus sign when negative.
pub open spec fn decimal(n: int) -> Seq<char> {
    if n < 0 {
        seq!['-'] + decimal_nat((-n) as nat)
    } else {
        decimal_nat(n as nat)
    }
}

fn digit_str(d: u64) -> (r: &'static str)
    requires
        d < 10,
    ensures
        r@ == seq![digit_char(d as nat)],
{
    proof {
        reveal_strlit("0");
        reveal_strlit("1");
        reveal_strlit("2");
        reveal_strlit("3");
        reveal_strlit("4");
        reveal_strlit("5");
        reveal_strlit("6");
        reveal_strlit("7");
        reveal_strlit("8");
        reveal_strlit("9");
    }
    if d == 0 { "0" }
    else if d == 1 { "1" }
    else if d == 2 { "2" }
    else if d == 3 { "3" }
    else if d == 4 { "4" }
    else if d == 5 { "5" }
    else if d == 6 { "6" }
    else if d == 7 { "7" }
    else if d == 8 { "8" }
    else { "9" }
}

fn decimal_u64(n: u64) -> (r: String)
    ensures
        r@ == decimal_nat(n as nat),
    decreases n,
{
    if n < 10 {
        String::from_str(digit_str(n))
    } else {
        let head = decimal_u64(n / 10);
        head.concat(digit_str(n % 10))
    }
}

/// Renders an integer in decimal.
pub fn decimal_string(n: i64) -> (r: String)
    ensures
        r@ == decimal(n as int),
{
    if n < 0 {
        let m: u64 = (0i128 - n as i128) as u64;
        let digits = decimal_u64(m);
        proof {
            reveal_strlit("-");
        }
        String::from_str("-").concat(digits.as_str())
    } else {
        decimal_u64(n as u64)
    }
}

/// The text that describes an error.
pub open spec fn message_text(e: DatabaseError) -> Seq<char> {
    match e {
        DatabaseError::NotFound { entity, id } => entity@ + " with ID "@ + decimal(id as int) + " not found"@,
        DatabaseError::InvalidData { field, reason } => "Invalid "@ + field@ + ": "@ + reason@,
        DatabaseError::CircularReference { group_id, parent_id } => "Circular reference detected: group "@
            + decimal(group_id as int) + " cannot have parent "@ + decimal(parent_id as int)
            + " (would create loop)"@,
        DatabaseError::ForeignKeyViolation { field, referenced_id } => field@ + " references non-existent ID "@
            + decimal(referenced_id as int),
        DatabaseError::DatabaseLocked => DATABASE_LOCKED_MESSAGE@,
        DatabaseError::ConnectionFailed => CONNECTION_FAILED_MESSAGE@,
        DatabaseError::Internal(msg) => "Database error: "@ + msg@,
    }
}

impl DatabaseError {
    /// Describes the error in words.
    pub fn message(&self) -> (r: String)
        ensures
            r@ == message_text(*self),
    {
        match self {
            DatabaseError::NotFound { entity, id } => String::from_str(entity).concat(" with ID ").concat(
                decimal_string(*id).as_str(),
            ).concat(" not found"),
            DatabaseError::InvalidData { field, reason } => String::from_str("Invalid ").concat(field).concat(
                ": ",
            ).concat(reason.as_str()),
            DatabaseError::CircularReference { group_id, parent_id } => String::from_str(
                "Circular reference detected: group ",
            ).concat(decimal_string(*group_id).as_str()).concat(" cannot have parent ").concat(
                decimal_string(*parent_id).as_str(),
            ).concat(" (would create loop)"),
            DatabaseError::ForeignKeyViolation { field, referenced_id } => String::from_str(field).concat(
                " references non-existent ID ",
            ).concat(decimal_string(*referenced_id).as_str()),
            DatabaseError::DatabaseLocked => String::from_str(DATABASE_LOCKED_MESSAGE),
            DatabaseError::ConnectionFailed => String::from_str(CONNECTION_FAILED_MESSAGE),
            DatabaseError::Internal(msg) => String::from_str("Database error: ").concat(msg.as_str()),
        }
    }
}

/// An error as a flat record for callers across a process boundary: a
/// code naming its kind, and its message.
#[derive(Debug)]
pub struct SerializableError {
    pub code: String,
    pub message: String,
}

/// The code that names each kind of error.
pub open spec fn code_text(e: DatabaseError) -> Seq<char> {
    match e {
        DatabaseError::NotFound { .. } => "NOT_FOUND"@,
        DatabaseError::InvalidData { .. } => "INVALID_DATA"@,
        DatabaseError::CircularReference { .. } => "CIRCULAR_REFERENCE"@,
        DatabaseError::ForeignKeyViolation { .. } => "FOREIGN_KEY_VIOLATION"@,
        DatabaseError::DatabaseLocked => "DATABASE_LOCKED"@,
        DatabaseError::ConnectionFailed => "DATABASE_CONNECTION_FAIL"@,
        DatabaseError::Internal(_) => "INTERNAL"@,
    }
}

impl SerializableError {
    /// The flat record of an error: its code and its message.
    pub fn from(err: DatabaseError) -> (r: SerializableError)
        ensures
            r.code@ == code_text(err),
            r.message@ == message_text(err),
    {
        let message = err.message();
        let code = match err {
            DatabaseError::NotFound { .. } => String::from_str("NOT_FOUND"),
            DatabaseError::InvalidData { .. } => String::from_str("INVALID_DATA"),
            DatabaseError::CircularReference { .. } => String::from_str("CIRCULAR_REFERENCE"),
            DatabaseError::ForeignKeyViolation { .. } => String::from_str("FOREIGN_KEY_VIOLATION"),
            DatabaseError::DatabaseLocked => String::from_str("DATABASE_LOCKED"),
            DatabaseError::ConnectionFailed => String::from_str("DATABASE_CONNECTION_FAIL"),
            DatabaseError::Internal(_) => String::from_str("INTERNAL"),
        };
        SerializableError { code, message }
    }
}

} // verus!
