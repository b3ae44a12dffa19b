//! Checks on the sizes of fragments and table files before any work starts.

use vstd::prelude::*;

verus! {

/// Why the files given to a command do not fit together.
#[derive(Debug, Clone, Copy, PartialEq, Eq, Structural)]
pub enum LayoutError {
    /// A byte range that is empty or runs backwards.
    EmptyRange,
    /// A byte range that ends past the end of the file.
    PastEnd,
    /// A text of no bytes, which no table can describe.
    EmptyText,
    /// A table file whose length is not a whole number of entries per byte.
    UnevenTable,
    /// An entry width outside `1..=8`.
    BadWidth,
    /// Tables of one merge written at different widths.
    WidthMismatch,
}

/// Checks that `start..end` is a non-empty byte range of a file of
/// `file_len` bytes.
pub fn check_part_range(start: u64, end: u64, file_len: u64) -> (r: Result<(), LayoutError>)
    ensures
        start >= end ==> r == Err::<(), LayoutError>(LayoutError::EmptyRange),
        start < end && end > file_len ==> r == Err::<(), LayoutError>(LayoutError::PastEnd),
        start < end && end <= file_len ==> r == Ok::<(), LayoutError>(()),
{
    if start >= end {
        Err(LayoutError::EmptyRange)
    } else if end > file_len {
        Err(LayoutError::PastEnd)
    } else {
        Ok(())
    }
}

/// The entry width of a table file of `table_len` bytes over a text of
/// `text_len` bytes: one entry per byte of text.
pub fn table_width(table_len: u64, text_len: u64) -> (r: Result<usize, LayoutError>)
    ensures
        text_len == 0 ==> r == Err::<usize, LayoutError>(LayoutError::EmptyText),
        text_len > 0 && table_len % text_len != 0 ==> r == Err::<usize, LayoutError>(
            LayoutError::UnevenTable,
        ),
        text_len > 0 && table_len % text_len == 0 && !(1 <= table_len / text_len <= 8) ==> r
            == Err::<usize, LayoutError>(LayoutError::BadWidth),
        text_len > 0 && table_len % text_len == 0 && 1 <= table_len / text_len <= 8 ==> r
            == Ok::<usize, LayoutError>((table_len / text_len) as usize),
{
    if text_len == 0 {
        return Err(LayoutError::EmptyText);
    }
    if table_len % text_len != 0 {
        return Err(LayoutError::UnevenTable);
    }
    let w = table_len / text_len;
    if w < 1 || w > 8 {
        return Err(LayoutError::BadWidth);
    }
    Ok(w as usize)
}

/// The one width shared by all `widths`; fails on none or on two that differ.
pub fn common_width(widths: &Vec<usize>) -> (r: Result<usize, LayoutError>)
    ensures
        widths@.len() == 0 ==> r == Err::<usize, LayoutError>(LayoutError::WidthMismatch),
        widths@.len() > 0 && (forall|i: int| 0 <= i < widths@.len() ==> #[trigger] widths@[i] == widths@[0])
            ==> r == Ok::<usize, LayoutError>(widths@[0]),
        widths@.len() > 0 && (exists|i: int| 0 <= i < widths@.len() && #[trigger] widths@[i] != widths@[0])
            ==> r == Err::<usize, LayoutError>(LayoutError::WidthMismatch),
{
    if widths.len() == 0 {
        return Err(LayoutError::WidthMismatch);
    }
    let w = widths[0];
    let mut i: usize = 1;
    while i < widths.len()
        invariant
            widths@.len() > 0,
            w == widths@[0],
            1 <= i <= widths@.len(),
            forall|q: int| 0 <= q < i ==> #[trigger] widths@[q] == w,
        decreases widths@.len() - i,
    {
        if widths[i] != w {
            return Err(LayoutError::WidthMismatch);
        }
        i = i + 1;
    }
    Ok(w)
}

} // verus!
