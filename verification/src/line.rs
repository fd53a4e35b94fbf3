//! The line grammar shared by every file of the database: fields separated
//! by `;`, a comment from `#` to the end of the line, white space around a
//! field without meaning.

use crate::error::Error;
use crate::text::{copy_range, find, find_byte, trim, trim_range, views};
use vstd::prelude::*;

verus! {

/// `;`, which separates fields.
pub const SEPARATOR: u8 = 0x3b;

/// `#`, which starts a comment.
pub const COMMENT: u8 = 0x23;

/// How many fields a line may have.
#[derive(Clone, Copy, Debug, PartialEq, Eq, Structural)]
pub enum Arity {
    /// This many and no other number.
    Exactly(usize),
    /// This many or more.
    AtLeast(usize),
}

impl Arity {
    /// Whether a line of `n` fields is accepted.
    pub open spec fn admits(self, n: nat) -> bool {
        match self {
            Arity::Exactly(k) => n == k,
            Arity::AtLeast(k) => n >= k,
        }
    }

    /// Whether a line of `n` fields is accepted.
    pub fn accepts(&self, n: usize) -> (b: bool)
        ensures
            b == self.admits(n as nat),
    {
        match self {
            Arity::Exactly(k) => n == *k,
            Arity::AtLeast(k) => n >= *k,
        }
    }
}

/// The line up to its comment.
pub open spec fn strip_comment(line: Seq<u8>) -> Seq<u8> {
    line.take(find(line, COMMENT) as int)
}

/// The pieces of `s` between occurrences of `sep`, each trimmed. There is
/// one piece more than there are separators, so the empty string has one
/// empty piece.
pub open spec fn split_trimmed(s: Seq<u8>, sep: u8) -> Seq<Seq<u8>>
    decreases s.len(),
{
    let i = find(s, sep);
    if i >= s.len() {
        seq![trim(s)]
    } else {
        seq![trim(s.take(i as int))] + split_trimmed(s.skip(i as int + 1), sep)
    }
}

/// The fields of a line.
pub open spec fn fields_of(line: Seq<u8>) -> Seq<Seq<u8>> {
    split_trimmed(strip_comment(line), SEPARATOR)
}

/// A line that holds nothing but white space and a comment.
pub open spec fn is_skippable(line: Seq<u8>) -> bool {
    trim(strip_comment(line)).len() == 0
}

/// The fields of a line with the expected number of them, and nothing else.
pub open spec fn parsed(line: Seq<u8>, arity: Arity) -> Result<Seq<Seq<u8>>, Error> {
    if arity.admits(fields_of(line).len()) {
        Ok(fields_of(line))
    } else {
        Err(Error::MalformedLine)
    }
}

/// Splits `s[..end]` at each `sep` and trims the pieces.
pub fn split_bytes(s: &[u8], end: usize, sep: u8) -> (r: Vec<Vec<u8>>)
    requires
        end <= s.len(),
    ensures
        views(r@) == split_trimmed(s@.take(end as int), sep),
{
    let ghost whole = s@.take(end as int);
    let mut out: Vec<Vec<u8>> = Vec::new();
    let mut start: usize = 0;
    let mut done = false;
    assert(whole.skip(0) =~= whole);
    assert(views(out@) + split_trimmed(whole, sep) =~= split_trimmed(whole, sep));
    while !done
        invariant
            start <= end <= s.len(),
            whole == s@.take(end as int),
            !done ==> views(out@) + split_trimmed(whole.skip(start as int), sep) == split_trimmed(
                whole,
                sep,
            ),
            done ==> views(out@) == split_trimmed(whole, sep),
        decreases end - start + (if done { 0int } else { 1int }),
    {
        let ghost rest = whole.skip(start as int);
        let ghost before = views(out@);
        let i = find_byte(s, start, end, sep);
        assert(s@.subrange(start as int, end as int) =~= rest);
        let (a, b) = trim_range(s, start, i);
        assert(s@.subrange(start as int, i as int) =~= rest.take(i - start));
        let piece = copy_range(s, a, b);
        out.push(piece);
        assert(views(out@) =~= before.push(trim(rest.take(i - start))));
        if i >= end {
            proof {
                assert(rest.take(i - start) =~= rest);
                assert(before.push(trim(rest)) =~= before + seq![trim(rest)]);
            }
            done = true;
        } else {
            proof {
                assert(rest.skip(i - start + 1) =~= whole.skip(i + 1));
                let piece_view = trim(rest.take(i - start));
                let tail = split_trimmed(whole.skip(i + 1), sep);
                assert(before.push(piece_view) + tail =~= before + (seq![piece_view] + tail));
            }
            start = i + 1;
        }
    }
    out
}

/// The fields of a line: what stands before the comment, split at `;`,
/// each field trimmed.
pub fn split_fields(line: &[u8]) -> (r: Vec<Vec<u8>>)
    ensures
        views(r@) == fields_of(line@),
{
    let end = find_byte(line, 0, line.len(), COMMENT);
    assert(line@.subrange(0, line.len() as int) =~= line@);
    split_bytes(line, end, SEPARATOR)
}

/// The fields of a line that must have as many of them as `arity` says.
/// A line with another number of fields is malformed: none is dropped and
/// none is made up.
pub fn parse_fields(line: &[u8], arity: Arity) -> (r: Result<Vec<Vec<u8>>, Error>)
    ensures
        match r {
            Ok(fields) => parsed(line@, arity) == Ok::<Seq<Seq<u8>>, Error>(views(fields@)),
            Err(e) => parsed(line@, arity) == Err::<Seq<Seq<u8>>, Error>(e),
        },
{
    let fields = split_fields(line);
    assert(views(fields@).len() == fields@.len());
    if arity.accepts(fields.len()) {
        Ok(fields)
    } else {
        Err(Error::MalformedLine)
    }
}

/// Whether a line is blank or holds only a comment. Such a line is no
/// record and is passed over before the fields are read.
pub fn skippable(line: &[u8]) -> (b: bool)
    ensures
        b == is_skippable(line@),
{
    let end = find_byte(line, 0, line.len(), COMMENT);
    assert(line@.subrange(0, line.len() as int) =~= line@);
    let (a, b) = trim_range(line, 0, end);
    assert(line@.subrange(0, end as int) =~= line@.take(end as int));
    a == b
}

} // verus!
