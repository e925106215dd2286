use vstd::prelude::*;
use crate::text::{ascii_lowercase, chars_eq_str, str_eq, str_starts_with, to_ascii_lowercase};

verus! {

/// Delimiter and quoting policy of a document.
#[derive(Debug, Clone, Copy, PartialEq, Eq, Structural)]
pub enum Dialect {
    /// `,` quoted
    Csv,
    /// `\t` simple
    Tsv,
    /// `;` quoted
    Ssv,
    /// `|` simple
    Psv,
}

impl Dialect {
    pub open spec fn spec_delimiter(self) -> char {
        match self {
            Dialect::Csv => ',',
            Dialect::Tsv => '\t',
            Dialect::Ssv => ';',
            Dialect::Psv => '|',
        }
    }

    pub open spec fn spec_quoted(self) -> bool {
        self == Dialect::Csv || self == Dialect::Ssv
    }

    /// The field delimiter.
    #[verifier::when_used_as_spec(spec_delimiter)]
    pub fn delimiter(self) -> (c: char)
        ensures
            c == self.spec_delimiter(),
    {
        match self {
            Dialect::Csv => ',',
            Dialect::Tsv => '\t',
            Dialect::Ssv => ';',
            Dialect::Psv => '|',
        }
    }

    /// Whether `"..."` quoting is honoured.
    #[verifier::when_used_as_spec(spec_quoted)]
    pub fn quoted(self) -> (b: bool)
        ensures
            b == self.spec_quoted(),
    {
        match self {
            Dialect::Csv | Dialect::Ssv => true,
            _ => false,
        }
    }

    /// Dialect for an LSP `languageId`.
    pub fn from_language_id(id: &str) -> (r: Option<Dialect>)
        ensures
            r == (if id@ == "csv"@ {
                Some(Dialect::Csv)
            } else if id@ == "tsv"@ {
                Some(Dialect::Tsv)
            } else if id@ == "csv-semicolon"@ {
                Some(Dialect::Ssv)
            } else if id@ == "csv-pipe"@ {
                Some(Dialect::Psv)
            } else {
                None
            }),
    {
        if str_eq(id, "csv") {
            Some(Dialect::Csv)
        } else if str_eq(id, "tsv") {
            Some(Dialect::Tsv)
        } else if str_eq(id, "csv-semicolon") {
            Some(Dialect::Ssv)
        } else if str_eq(id, "csv-pipe") {
            Some(Dialect::Psv)
        } else {
            None
        }
    }

    /// Dialect for a language display name; the tab-separated one is matched
    /// by prefix.
    pub fn from_language_name(name: &str) -> (r: Option<Dialect>)
        ensures
            r == (if name@ == "Rainbow CSV Align (,)"@ {
                Some(Dialect::Csv)
            } else if "Rainbow TSV Align"@.len() <= name@.len() && name@.subrange(
                0,
                "Rainbow TSV Align"@.len() as int,
            ) == "Rainbow TSV Align"@ {
                Some(Dialect::Tsv)
            } else if name@ == "Rainbow CSV Align (;)"@ {
                Some(Dialect::Ssv)
            } else if name@ == "Rainbow CSV Align (|)"@ {
                Some(Dialect::Psv)
            } else {
                None
            }),
    {
        if str_eq(name, "Rainbow CSV Align (,)") {
            Some(Dialect::Csv)
        } else if str_starts_with(name, "Rainbow TSV Align") {
            Some(Dialect::Tsv)
        } else if str_eq(name, "Rainbow CSV Align (;)") {
            Some(Dialect::Ssv)
        } else if str_eq(name, "Rainbow CSV Align (|)") {
            Some(Dialect::Psv)
        } else {
            None
        }
    }

    /// Dialect for a file extension, compared ASCII-case-insensitively.
    pub fn from_extension(ext: &str) -> (r: Option<Dialect>)
        ensures
            r == (if ascii_lowercase(ext@) == "csv"@ {
                Some(Dialect::Csv)
            } else if ascii_lowercase(ext@) == "tsv"@ || ascii_lowercase(ext@) == "tab"@ {
                Some(Dialect::Tsv)
            } else {
                None
            }),
    {
        let lower = to_ascii_lowercase(ext);
        if chars_eq_str(lower.as_slice(), "csv") {
            Some(Dialect::Csv)
        } else if chars_eq_str(lower.as_slice(), "tsv") || chars_eq_str(lower.as_slice(), "tab") {
            Some(Dialect::Tsv)
        } else {
            None
        }
    }
}

} // verus!
