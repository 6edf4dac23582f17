//! Small verified arithmetic helpers: the sum of the even integers of a
//! range, the parsing of one line of text into a signed integer, and the
//! multiplication table of that integer.

pub mod input;
pub mod range_sum;
pub mod table;
