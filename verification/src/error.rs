use vstd::prelude::*;
use vstd::string::StringExecFns;

verus! {

/// Failures reported by the database core.
#[derive(Debug)]
pub enum VectorDbError {
    Io(String),
    Serialization(String),
    InvalidDimension { expected: usize, actual: usize },
    VectorNotFound { id: String },
    CollectionNotFound { name: String },
    CollectionAlreadyExists { name: String },
    InvalidDistanceMetric { metric: String },
    IndexError { message: String },
    StorageError { message: String },
    NetworkError { message: String },
    ConfigError { message: String },
    Internal { message: String },
}

impl VectorDbError {
    /// An internal error with the given text.
    pub open spec fn is_internal(self, text: Seq<char>) -> bool {
        self matches VectorDbError::Internal { message } && message@ == text
    }

    /// The error of an operation that could not be logged, because the
    /// system gave no random bytes for the identifier of its entry.
    pub open spec fn is_unlogged(self) -> bool {
        self.is_internal("no random bytes for an identifier"@)
    }

    /// A storage error with the given text.
    pub open spec fn is_storage_error(self, text: Seq<char>) -> bool {
        self matches VectorDbError::StorageError { message } && message@ == text
    }

    /// A serialisation error with the given text.
    pub open spec fn is_serialization(self, text: Seq<char>) -> bool {
        self matches VectorDbError::Serialization(message) && message@ == text
    }

    /// An index error with the given text.
    pub open spec fn is_index_error(self, text: Seq<char>) -> bool {
        self matches VectorDbError::IndexError { message } && message@ == text
    }

    /// A configuration error with the given text.
    pub open spec fn is_config_error(self, text: Seq<char>) -> bool {
        self matches VectorDbError::ConfigError { message } && message@ == text
    }

    /// The error for a collection that is not there.
    pub open spec fn is_not_found(self, collection: Seq<char>) -> bool {
        self matches VectorDbError::CollectionNotFound { name } && name@ == collection
    }

    /// The error for a collection that is there already.
    pub open spec fn is_already_exists(self, collection: Seq<char>) -> bool {
        self matches VectorDbError::CollectionAlreadyExists { name } && name@ == collection
    }

    /// The error for a vector of `actual` components where `expected` are
    /// due.
    pub open spec fn is_dimension_mismatch(self, expected: usize, actual: usize) -> bool {
        self == dimension_mismatch(expected, actual)
    }
}

/// The character of a decimal digit.
pub open spec fn digit_char(digit: int) -> char {
    if digit == 0 {
        '0'
    } else if digit == 1 {
        '1'
    } else if digit == 2 {
        '2'
    } else if digit == 3 {
        '3'
    } else if digit == 4 {
        '4'
    } else if digit == 5 {
        '5'
    } else if digit == 6 {
        '6'
    } else if digit == 7 {
        '7'
    } else if digit == 8 {
        '8'
    } else {
        '9'
    }
}

/// A number in decimal, without leading zeros.
pub open spec fn decimal(n: nat) -> Seq<char>
    decreases n,
{
    if n < 10 {
        seq![digit_char(n as int)]
    } else {
        decimal(n / 10).push(digit_char((n % 10) as int))
    }
}

/// The text of an error: what kind it is, then what it is about.
pub open spec fn error_text(error: VectorDbError) -> Seq<char> {
    match error {
        VectorDbError::Io(text) => "IO error: "@ + text@,
        VectorDbError::Serialization(text) => "Serialization error: "@ + text@,
        VectorDbError::InvalidDimension { expected, actual } =>
            "Invalid vector dimension: expected "@ + decimal(expected as nat) + ", got "@ + decimal(
                actual as nat,
            ),
        VectorDbError::VectorNotFound { id } => "Vector not found: "@ + id@,
        VectorDbError::CollectionNotFound { name } => "Collection not found: "@ + name@,
        VectorDbError::CollectionAlreadyExists { name } => "Collection already exists: "@ + name@,
        VectorDbError::InvalidDistanceMetric { metric } => "Invalid distance metric: "@ + metric@,
        VectorDbError::IndexError { message } => "Index error: "@ + message@,
        VectorDbError::StorageError { message } => "Storage error: "@ + message@,
        VectorDbError::NetworkError { message } => "Network error: "@ + message@,
        VectorDbError::ConfigError { message } => "Configuration error: "@ + message@,
        VectorDbError::Internal { message } => "Internal error: "@ + message@,
    }
}

/// The digit as text.
fn digit_text(digit: usize) -> (text: &'static str)
    requires
        digit < 10,
    ensures
        text@ == seq![digit_char(digit as int)],
{
    proof {
        reveal_strlit("0");
        reveal_strlit("1");
        reveal_strlit("2");
        reveal_strlit("3");
        reveal_strlit("4");
        reveal_strlit("5");
        reveal_strlit("6");
        reveal_strlit("7");
        reveal_strlit("8");
        reveal_strlit("9");
    }
    let text = if digit == 0 {
        "0"
    } else if digit == 1 {
        "1"
    } else if digit == 2 {
        "2"
    } else if digit == 3 {
        "3"
    } else if digit == 4 {
        "4"
    } else if digit == 5 {
        "5"
    } else if digit == 6 {
        "6"
    } else if digit == 7 {
        "7"
    } else if digit == 8 {
        "8"
    } else {
        "9"
    };
    assert(text@ =~= seq![digit_char(digit as int)]);
    text
}

/// A number in decimal.
pub fn decimal_text(n: usize) -> (text: String)
    ensures
        text@ == decimal(n as nat),
    decreases n,
{
    if n < 10 {
        String::from_str(digit_text(n))
    } else {
        let mut text = decimal_text(n / 10);
        text.append(digit_text(n % 10));
        assert(text@ =~= decimal((n / 10) as nat).push(digit_char((n % 10) as int)));
        text
    }
}

/// `head` followed by `tail`.
fn join(head: &str, tail: &str) -> (text: String)
    ensures
        text@ == head@ + tail@,
{
    let mut text = String::from_str(head);
    text.append(tail);
    text
}

impl VectorDbError {
    /// The text of the error.
    pub fn message(&self) -> (text: String)
        ensures
            text@ == error_text(*self),
    {
        match self {
            VectorDbError::Io(text) => join("IO error: ", text.as_str()),
            VectorDbError::Serialization(text) => join("Serialization error: ", text.as_str()),
            VectorDbError::InvalidDimension { expected, actual } => {
                let mut text = join(
                    "Invalid vector dimension: expected ",
                    decimal_text(*expected).as_str(),
                );
                text.append(", got ");
                text.append(decimal_text(*actual).as_str());
                text
            },
            VectorDbError::VectorNotFound { id } => join("Vector not found: ", id.as_str()),
            VectorDbError::CollectionNotFound { name } => join(
                "Collection not found: ",
                name.as_str(),
            ),
            VectorDbError::CollectionAlreadyExists { name } => join(
                "Collection already exists: ",
                name.as_str(),
            ),
            VectorDbError::InvalidDistanceMetric { metric } => join(
                "Invalid distance metric: ",
                metric.as_str(),
            ),
            VectorDbError::IndexError { message } => join("Index error: ", message.as_str()),
            VectorDbError::StorageError { message } => join("Storage error: ", message.as_str()),
            VectorDbError::NetworkError { message } => join("Network error: ", message.as_str()),
            VectorDbError::ConfigError { message } => join(
                "Configuration error: ",
                message.as_str(),
            ),
            VectorDbError::Internal { message } => join("Internal error: ", message.as_str()),
        }
    }
}

/// The error for a vector of `actual` components where `expected` are due.
pub open spec fn dimension_mismatch(expected: usize, actual: usize) -> VectorDbError {
    VectorDbError::InvalidDimension { expected, actual }
}

} // verus!
