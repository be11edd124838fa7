//! What can go wrong.

use vstd::prelude::*;
use vstd::string::*;

use crate::datatype::DataType;

verus! {

/// Why a page cannot be written.
#[derive(Debug, PartialEq, Eq)]
pub enum WriteError<'a> {
    /// A value is missing in this column, which is required.
    MissingValue(&'a str),
    /// There is no flat page for this data type.
    UnsupportedType(&'a DataType),
    /// There is no nested page for this data type.
    UnsupportedNestedType(&'a DataType),
    /// A dictionary page cannot be divided by its content.
    DictionaryPage,
}

/// Why a page cannot be written.
#[verifier::ext_equal]
pub enum WriteErrorView {
    MissingValue(Seq<char>),
    UnsupportedType(DataType),
    UnsupportedNestedType(DataType),
    DictionaryPage,
}

impl<'a> View for WriteError<'a> {
    type V = WriteErrorView;

    open spec fn view(&self) -> WriteErrorView {
        match self {
            WriteError::MissingValue(column) => WriteErrorView::MissingValue(column@),
            WriteError::UnsupportedType(dtype) => WriteErrorView::UnsupportedType(**dtype),
            WriteError::UnsupportedNestedType(dtype) => WriteErrorView::UnsupportedNestedType(
                **dtype,
            ),
            WriteError::DictionaryPage => WriteErrorView::DictionaryPage,
        }
    }
}

impl WriteErrorView {
    /// The error in words, where these are the words for the data type that it names.
    pub open spec fn text(self, dtype: Seq<char>) -> Seq<char> {
        match self {
            WriteErrorView::MissingValue(column) =>
                "writing a missing value to required parquet column '"@ + column + "'"@,
            WriteErrorView::UnsupportedType(_) => "Writing parquet pages for data type "@ + dtype,
            WriteErrorView::UnsupportedNestedType(_) =>
                "Writing nested parquet pages for data type "@ + dtype,
            WriteErrorView::DictionaryPage => "CDC not supported for dictionary pages"@,
        }
    }
}

impl<'a> WriteError<'a> {
    /// The data type that the error names.
    pub fn dtype(&self) -> (dtype: Option<&'a DataType>)
        ensures
            match self@ {
                WriteErrorView::UnsupportedType(named) => dtype == Some(&named),
                WriteErrorView::UnsupportedNestedType(named) => dtype == Some(&named),
                _ => dtype is None,
            },
    {
        match self {
            WriteError::UnsupportedType(dtype) => Some(*dtype),
            WriteError::UnsupportedNestedType(dtype) => Some(*dtype),
            _ => None,
        }
    }

    /// The error in words, where `dtype` are the words for the data type that it names.
    pub fn message(&self, dtype: &str) -> (text: String)
        ensures
            text@ == self@.text(dtype@),
    {
        match self {
            WriteError::MissingValue(column) => {
                let mut text: String =
                    "writing a missing value to required parquet column '".to_owned();
                text.append(column);
                text.append("'");
                text
            },
            WriteError::UnsupportedType(_) => {
                let mut text: String = "Writing parquet pages for data type ".to_owned();
                text.append(dtype);
                text
            },
            WriteError::UnsupportedNestedType(_) => {
                let mut text: String = "Writing nested parquet pages for data type ".to_owned();
                text.append(dtype);
                text
            },
            WriteError::DictionaryPage => "CDC not supported for dictionary pages".to_owned(),
        }
    }
}

} // verus!
