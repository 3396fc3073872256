//! Error types for timeseries-db

use vstd::prelude::*;

verus! {

/// Declares `std::io::Error` to Verus: an operating-system I/O error, carried through
/// unchanged and opaque to the proofs.
#[verifier::external_type_specification]
#[verifier::external_body]
pub struct ExIoError(std::io::Error);

pub type Result<T> = std::result::Result<T, Error>;

#[derive(Debug)]
pub enum Error {
    /// An I/O error ("IO error: ...").
    Io(std::io::Error),
    /// Encoding a value failed ("Serialization error: ...").
    Serialization(String),
    /// Decoding a value failed ("Deserialization error: ...").
    Deserialization(String),
    /// Stored data is damaged ("Corruption detected: ...").
    Corruption(String),
    /// A timestamp is out of range ("Invalid timestamp: ...").
    InvalidTimestamp(i64),
    /// A metric name is not accepted ("Invalid metric name: ...").
    InvalidMetricName(String),
    /// A query or a value is not accepted ("Query error: ...").
    Query(String),
    /// Compressing or decompressing failed ("Compression error: ...").
    Compression(String),
    /// The database is closed ("Database closed").
    DatabaseClosed,
    /// The write-ahead log is damaged ("WAL corruption: ...").
    WalCorruption(String),
    /// A table file is missing ("SSTable not found: ...").
    SstableNotFound(String),
    /// The configuration is not accepted ("Invalid configuration: ...").
    InvalidConfig(String),
}

/// The decimal representation of `n`, with a minus sign when it is negative.
pub open spec fn signed_decimal(n: int) -> Seq<char> {
    if n < 0 {
        seq!['-'] + decimal((-n) as nat)
    } else {
        decimal(n as nat)
    }
}

/// The text of an error other than an I/O error.
pub open spec fn error_text(e: Error) -> Seq<char> {
    match e {
        Error::Io(_) => "IO error: "@,
        Error::Serialization(m) => "Serialization error: "@ + m@,
        Error::Deserialization(m) => "Deserialization error: "@ + m@,
        Error::Corruption(m) => "Corruption detected: "@ + m@,
        Error::InvalidTimestamp(t) => "Invalid timestamp: "@ + signed_decimal(t as int),
        Error::InvalidMetricName(m) => "Invalid metric name: "@ + m@,
        Error::Query(m) => "Query error: "@ + m@,
        Error::Compression(m) => "Compression error: "@ + m@,
        Error::DatabaseClosed => "Database closed"@,
        Error::WalCorruption(m) => "WAL corruption: "@ + m@,
        Error::SstableNotFound(m) => "SSTable not found: "@ + m@,
        Error::InvalidConfig(m) => "Invalid configuration: "@ + m@,
    }
}

/// Text made of `prefix` and `detail`.
fn labelled(prefix: &str, detail: &str) -> (r: String)
    ensures
        r@ == prefix@ + detail@,
{
    let mut s = prefix.to_owned();
    s.append(detail);
    s
}

impl Error {
    /// The error's message. An I/O error is described by the text of the I/O error
    /// after the label.
    pub fn message(&self) -> (r: String)
        ensures
            !(self is Io) ==> r@ == error_text(*self),
            self is Io ==> r@.take(10) == error_text(*self),
    {
        match self {
            Error::Io(e) => {
                let text = e.to_string();
                let r = labelled("IO error: ", text.as_str());
                proof {
                    reveal_strlit("IO error: ");
                    assert(r@.take(10) =~= "IO error: "@);
                }
                r
            },
            Error::Serialization(m) => labelled("Serialization error: ", m.as_str()),
            Error::Deserialization(m) => labelled("Deserialization error: ", m.as_str()),
            Error::Corruption(m) => labelled("Corruption detected: ", m.as_str()),
            Error::InvalidTimestamp(t) => {
                let mut s = "Invalid timestamp: ".to_owned();
                if *t < 0 {
                    s.append("-");
                    let magnitude: u64 = (-(*t as i128)) as u64;
                    push_decimal(&mut s, magnitude);
                    proof {
                        reveal_strlit("-");
                        assert(s@ =~= "Invalid timestamp: "@ + signed_decimal(*t as int));
                    }
                } else {
                    push_decimal(&mut s, *t as u64);
                }
                s
            },
            Error::InvalidMetricName(m) => labelled("Invalid metric name: ", m.as_str()),
            Error::Query(m) => labelled("Query error: ", m.as_str()),
            Error::Compression(m) => labelled("Compression error: ", m.as_str()),
            Error::DatabaseClosed => "Database closed".to_owned(),
            Error::WalCorruption(m) => labelled("WAL corruption: ", m.as_str()),
            Error::SstableNotFound(m) => labelled("SSTable not found: ", m.as_str()),
            Error::InvalidConfig(m) => labelled("Invalid configuration: ", m.as_str()),
        }
    }
}

/// The I/O error of a read that runs past the end of the data, made by
/// `std::io::Error::new` with kind `UnexpectedEof` and the text a short `read_exact`
/// gives. Nothing is stated of the value: it is carried, not inspected.
#[verifier::external_body]
pub(crate) fn unexpected_eof() -> std::io::Error {
    std::io::Error::new(std::io::ErrorKind::UnexpectedEof, "failed to fill whole buffer")
}

/// The decimal digit `d` as a character.
pub open spec fn digit_char(d: nat) -> char {
    (48 + d) as char
}

/// The decimal representation of `n`, without leading zeros.
pub open spec fn decimal(n: nat) -> Seq<char>
    decreases n,
{
    if n < 10 {
        seq![digit_char(n)]
    } else {
        decimal(n / 10).push(digit_char(n % 10))
    }
}

/// The text of one decimal digit.
fn digit_str(d: u64) -> (r: &'static str)
    requires
        d < 10,
    ensures
        r@ == seq![digit_char(d as nat)],
{
    proof {
        reveal_strlit("0");
        reveal_strlit("1");
        reveal_strlit("2");
        reveal_strlit("3");
        reveal_strlit("4");
        reveal_strlit("5");
        reveal_strlit("6");
        reveal_strlit("7");
        reveal_strlit("8");
        reveal_strlit("9");
    }
    match d {
        0 => "0",
        1 => "1",
        2 => "2",
        3 => "3",
        4 => "4",
        5 => "5",
        6 => "6",
        7 => "7",
        8 => "8",
        _ => "9",
    }
}

/// Appends the decimal representation of `n` to `out`.
pub fn push_decimal(out: &mut String, n: u64)
    ensures
        final(out)@ == old(out)@ + decimal(n as nat),
    decreases n,
{
    if n < 10 {
        out.append(digit_str(n));
    } else {
        push_decimal(out, n / 10);
        out.append(digit_str(n % 10));
    }
}

} // verus!
