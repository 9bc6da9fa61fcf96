//! Record reading: LF (0x0A) is the only record separator and is not part of
//! the record; the final record must be LF-terminated unless the reader is
//! told otherwise.
use std::io::BufRead;
use vstd::prelude::*;

verus! {

/// The only byte that separates records.
pub const LF: u8 = 0x0A;

/// `std::io::Error`, declared so that read and write errors can be carried
/// through verified code; nothing inside it is visible to the proofs.
#[verifier::external_type_specification]
#[verifier::external_body]
pub struct ExIoError(std::io::Error);

/// What the reader does with a final record that is not LF-terminated.
#[derive(Clone, Copy, Debug, Eq, PartialEq)]
pub enum FinalTermination {
    RequireLf,
    AllowUnterminatedFinalRecord,
}

/// Options of a [`RecordReader`].
#[derive(Clone, Copy, Debug, Eq, PartialEq)]
pub struct ReaderOptions {
    pub final_termination: FinalTermination,
}

impl Default for ReaderOptions {
    /// The final record must be LF-terminated.
    fn default() -> (o: Self)
        ensures
            o == (ReaderOptions { final_termination: FinalTermination::RequireLf }),
    {
        ReaderOptions { final_termination: FinalTermination::RequireLf }
    }
}

/// Errors of record reading.
#[derive(Debug)]
pub enum ParseError {
    Io(std::io::Error),
    UnterminatedFinalRecord,
}

impl ParseError {
    /// The message a command reports for this error; an I/O error is
    /// reported with this prefix followed by the error itself.
    pub fn message(&self) -> (m: &'static str)
        ensures
            m@ == match self {
                ParseError::Io(_) => "I/O error"@,
                ParseError::UnterminatedFinalRecord => "final record is not terminated by LF"@,
            },
    {
        match self {
            ParseError::Io(_) => "I/O error",
            ParseError::UnterminatedFinalRecord => "final record is not terminated by LF",
        }
    }
}

impl From<std::io::Error> for ParseError {
    fn from(error: std::io::Error) -> (e: Self) {
        ParseError::Io(error)
    }
}

impl vstd::std_specs::convert::FromSpecImpl<std::io::Error> for ParseError {
    open spec fn obeys_from_spec() -> bool {
        true
    }

    open spec fn from_spec(error: std::io::Error) -> ParseError {
        ParseError::Io(error)
    }
}

/// The file name that stands for standard input.
pub const STDIN_SOURCE_NAME: &'static str = "-";

/// Whether a file name (as bytes) stands for standard input: it is exactly
/// `-`.
pub fn is_stdin_path(path: &[u8]) -> (res: bool)
    ensures
        res == (path@ == seq![0x2Du8]),
{
    let res = path.len() == 1 && path[0] == 0x2D;
    proof {
        if path@ == seq![0x2Du8] {
            assert(path@[0] == 0x2Du8);
        }
        if res {
            assert(path@ =~= seq![0x2Du8]);
        }
    }
    res
}

/// `BufRead::read_until` with LF as the delimiter. Its documentation states
/// that it appends to `buf` the bytes it reads up to and including the first
/// LF (or up to the end of the input), returns how many bytes it appended,
/// and on an error leaves the bytes read so far in `buf`. This contract says
/// that much: what is appended starts where `buf` ended and holds no LF
/// before its last byte. Which bytes the input holds is not stated.
#[verifier::external_body]
fn read_until_lf<R: BufRead>(reader: &mut R, buf: &mut Vec<u8>) -> (res: Result<usize, std::io::Error>)
    ensures
        final(buf)@.len() >= old(buf)@.len(),
        final(buf)@.take(old(buf)@.len() as int) == old(buf)@,
        forall|i: int|
            old(buf)@.len() <= i < final(buf)@.len() - 1 ==> #[trigger] final(buf)@[i] != LF,
        res matches Ok(n) ==> final(buf)@.len() == old(buf)@.len() + n,
{
    reader.read_until(b'\n', buf)
}

/// Reads LF-separated records from a buffered input.
pub struct RecordReader<R> {
    reader: R,
    options: ReaderOptions,
    buffer: Vec<u8>,
    consumed: Ghost<Seq<u8>>,
    returned: Ghost<Seq<Seq<u8>>>,
    ended: Ghost<bool>,
}

/// The record that a chunk of input read up to the next LF (or up to the end
/// of the input) holds: `Some(None)` for no input, `Some(Some(r))` for a
/// record `r`, and `None` when the chunk is an unterminated final record that
/// `options` refuses.
pub open spec fn record_in_chunk(chunk: Seq<u8>, options: ReaderOptions) -> Option<Option<Seq<u8>>> {
    if chunk.len() == 0 {
        Some(None)
    } else if chunk.last() == LF {
        Some(Some(chunk.drop_last()))
    } else if options.final_termination == FinalTermination::RequireLf {
        None
    } else {
        Some(Some(chunk))
    }
}

/// The view of an optional borrowed record.
pub open spec fn opt_view(o: Option<&[u8]>) -> Option<Seq<u8>> {
    match o {
        Some(r) => Some(r@),
        None => None,
    }
}

/// `s` holds no LF byte.
pub open spec fn no_lf(s: Seq<u8>) -> bool {
    forall|i: int| 0 <= i < s.len() ==> #[trigger] s[i] != LF
}

/// No LF occurs in `s` before its last byte.
pub open spec fn lf_only_at_end(s: Seq<u8>) -> bool {
    forall|i: int| 0 <= i < s.len() - 1 ==> #[trigger] s[i] != LF
}

/// Number of LF bytes in `s`.
pub open spec fn lf_count(s: Seq<u8>) -> nat
    decreases s.len(),
{
    if s.len() == 0 {
        0
    } else {
        lf_count(s.drop_last()) + if s.last() == LF { 1nat } else { 0nat }
    }
}

/// Records written one after another, each followed by LF.
pub open spec fn join_lines(rs: Seq<Seq<u8>>) -> Seq<u8>
    decreases rs.len(),
{
    if rs.len() == 0 {
        Seq::empty()
    } else {
        join_lines(rs.drop_last()) + rs.last().push(LF)
    }
}

/// The bytes that a reader took from its input between two states.
pub open spec fn taken_since<R>(before: RecordReader<R>, after: RecordReader<R>) -> Seq<u8> {
    after.consumed().skip(before.consumed().len() as int)
}

/// A record never holds the LF byte: the chunk it comes from holds LF at
/// most as its last byte, and that LF is not part of the record.
pub proof fn lemma_record_has_no_lf(chunk: Seq<u8>, options: ReaderOptions)
    requires
        lf_only_at_end(chunk),
    ensures
        record_in_chunk(chunk, options) matches Some(Some(r)) ==> no_lf(r),
{
    if chunk.len() > 0 && chunk.last() == LF {
        let r = chunk.drop_last();
        assert forall|i: int| 0 <= i < r.len() implies #[trigger] r[i] != LF by {
            assert(r[i] == chunk[i]);
        }
    }
}

/// Turns a chunk of input, read up to and including the next LF or up to the
/// end of the input, into the record it holds.
pub fn record_from_chunk(chunk: &[u8], options: ReaderOptions) -> (res: Result<Option<&[u8]>, ParseError>)
    ensures
        res matches Ok(o) ==> record_in_chunk(chunk@, options) == Some(opt_view(o)),
        res is Err ==> record_in_chunk(chunk@, options) is None && res->Err_0 is UnterminatedFinalRecord,
{
    let len = chunk.len();
    if len == 0 {
        return Ok(None);
    }
    if chunk[len - 1] == LF {
        let record = &chunk[0..len - 1];
        assert(record@ =~= chunk@.drop_last());
        return Ok(Some(record));
    }
    match options.final_termination {
        FinalTermination::RequireLf => Err(ParseError::UnterminatedFinalRecord),
        FinalTermination::AllowUnterminatedFinalRecord => Ok(Some(chunk)),
    }
}

impl<R> RecordReader<R> {
    pub closed spec fn options(&self) -> ReaderOptions {
        self.options
    }

    /// Every byte taken from the input so far.
    pub closed spec fn consumed(&self) -> Seq<u8> {
        self.consumed@
    }

    /// Every record returned so far, in order.
    pub closed spec fn records(&self) -> Seq<Seq<u8>> {
        self.returned@
    }

    /// The last read found the end of the input: it succeeded and took no
    /// byte.
    pub closed spec fn at_end(&self) -> bool {
        self.ended@
    }
}

impl<R: BufRead> RecordReader<R> {
    /// A reader that requires the final record to be LF-terminated.
    pub fn new(reader: R) -> (out: Self)
        ensures
            out.options() == (ReaderOptions { final_termination: FinalTermination::RequireLf }),
            out.consumed() == Seq::<u8>::empty(),
            out.records() == Seq::<Seq<u8>>::empty(),
            !out.at_end(),
    {
        Self::with_options(reader, ReaderOptions { final_termination: FinalTermination::RequireLf })
    }

    pub fn with_options(reader: R, options: ReaderOptions) -> (out: Self)
        ensures
            out.options() == options,
            out.consumed() == Seq::<u8>::empty(),
            out.records() == Seq::<Seq<u8>>::empty(),
            !out.at_end(),
    {
        RecordReader {
            reader,
            options,
            buffer: Vec::new(),
            consumed: Ghost(Seq::empty()),
            returned: Ghost(Seq::empty()),
            ended: Ghost(false),
        }
    }

    /// Reads the next record. The bytes taken from the input are one chunk up
    /// to and including the next LF (or to the end of the input); the result
    /// is the record that chunk holds, unless reading failed.
    pub fn read_record(&mut self) -> (res: Result<Option<&[u8]>, ParseError>)
        ensures
            final(self).options() == old(self).options(),
            final(self).consumed().len() >= old(self).consumed().len(),
            final(self).consumed().take(old(self).consumed().len() as int) == old(self).consumed(),
            lf_only_at_end(taken_since(*old(self), *final(self))),
            res matches Ok(o) ==> record_in_chunk(taken_since(*old(self), *final(self)), old(self).options())
                == Some(opt_view(o)),
            res matches Ok(Some(r)) ==> no_lf(r@),
            res matches Ok(Some(r)) ==> taken_since(*old(self), *final(self)) == r@.push(LF) || (
            taken_since(*old(self), *final(self)) == r@ && old(self).options().final_termination
                == FinalTermination::AllowUnterminatedFinalRecord),
            res matches Ok(None) ==> taken_since(*old(self), *final(self)).len() == 0,
            res matches Err(ParseError::UnterminatedFinalRecord) ==> record_in_chunk(
                taken_since(*old(self), *final(self)),
                old(self).options(),
            ) is None,
            final(self).at_end() == (res matches Ok(None)),
            res matches Ok(Some(r)) ==> final(self).records() == old(self).records().push(r@),
            (res is Err || res matches Ok(None)) ==> final(self).records() == old(self).records(),
            // While every record is LF-terminated, the input taken is exactly
            // the records returned, each followed by LF.
            old(self).options().final_termination == FinalTermination::RequireLf && old(self).consumed()
                == join_lines(old(self).records()) && res is Ok ==> final(self).consumed() == join_lines(
                final(self).records(),
            ),
    {
        self.buffer.clear();
        let res = read_until_lf(&mut self.reader, &mut self.buffer);
        let ghost before = self.consumed@;
        proof {
            self.consumed@ = self.consumed@ + self.buffer@;
            assert(self.consumed@.take(before.len() as int) =~= before);
            assert(self.consumed@.skip(before.len() as int) =~= self.buffer@);
        }
        proof {
            lemma_record_has_no_lf(self.buffer@, self.options);
            let b = self.buffer@;
            if b.len() > 0 && b.last() == LF {
                assert(b.drop_last().push(LF) =~= b);
            }
            let old_records = self.returned@;
            self.ended@ = res is Ok && b.len() == 0;
            if res is Ok {
                if let Some(Some(r)) = record_in_chunk(b, self.options) {
                    self.returned@ = old_records.push(r);
                    assert(self.returned@.drop_last() =~= old_records);
                }
            }
        }
        match res {
            Err(e) => Err(ParseError::from(e)),
            Ok(_) => record_from_chunk(self.buffer.as_slice(), self.options),
        }
    }
}

} // verus!
