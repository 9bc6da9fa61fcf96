//! `lcnt`: count the records of each input.
use std::io::BufRead;
use vstd::prelude::*;

use crate::fields::slice_views;
use crate::record::{
    lf_count, record_in_chunk, taken_since, FinalTermination, ParseError, RecordReader, LF,
};

verus! {

/// The flag `-f`: print the file name before each count.
pub open spec fn show_name_flag() -> Seq<u8> {
    seq![0x2Du8, 0x66u8]
}

/// The tokens of `lcnt` that name input files: every token but `-f`, in
/// order.
pub open spec fn lcnt_files_spec(args: Seq<Seq<u8>>) -> Seq<Seq<u8>>
    decreases args.len(),
{
    if args.len() == 0 {
        Seq::empty()
    } else if args.last() == show_name_flag() {
        lcnt_files_spec(args.drop_last())
    } else {
        lcnt_files_spec(args.drop_last()).push(args.last())
    }
}

/// Splits the tokens of `lcnt` into the `-f` flag (set when any token is
/// `-f`) and the input files.
pub fn split_lcnt_arguments<'a>(args: &[&'a [u8]]) -> (res: (bool, Vec<&'a [u8]>))
    ensures
        res.0 == slice_views(args@).contains(show_name_flag()),
        slice_views(res.1@) == lcnt_files_spec(slice_views(args@)),
{
    let ghost av = slice_views(args@);
    let mut show = false;
    let mut files: Vec<&'a [u8]> = Vec::new();
    let mut i: usize = 0;
    while i < args.len()
        invariant
            0 <= i <= args@.len(),
            av == slice_views(args@),
            show == av.take(i as int).contains(show_name_flag()),
            slice_views(files@) == lcnt_files_spec(av.take(i as int)),
        decreases args@.len() - i,
    {
        let arg: &[u8] = args[i];
        let is_flag = arg.len() == 2 && arg[0] == 0x2D && arg[1] == 0x66;
        let ghost t = av.take(i + 1);
        assert(t.drop_last() =~= av.take(i as int));
        assert(t.last() == arg@);
        proof {
            if is_flag {
                assert(arg@ =~= show_name_flag());
            }
            if arg@ == show_name_flag() {
                assert(arg@[0] == show_name_flag()[0]);
                assert(arg@[1] == show_name_flag()[1]);
            }
        }
        assert(is_flag == (arg@ == show_name_flag()));
        if is_flag {
            show = true;
            assert(t[i as int] == show_name_flag());
        } else {
            let ghost prev = files@;
            files.push(arg);
            assert(slice_views(files@) =~= slice_views(prev).push(arg@));
            proof {
                if av.take(i as int).contains(show_name_flag()) {
                    let w = choose|w: int| 0 <= w < i && #[trigger] av.take(i as int)[w] == show_name_flag();
                    assert(t[w] == show_name_flag());
                }
                if t.contains(show_name_flag()) {
                    let w = choose|w: int| 0 <= w < i + 1 && #[trigger] t[w] == show_name_flag();
                    assert(w != i);
                    assert(av.take(i as int)[w] == show_name_flag());
                }
            }
        }
        proof {
            if is_flag {
                if av.take(i as int).contains(show_name_flag()) {
                    let w = choose|w: int| 0 <= w < i && #[trigger] av.take(i as int)[w] == show_name_flag();
                    assert(t[w] == show_name_flag());
                }
            }
        }
        i += 1;
    }
    assert(av.take(i as int) =~= av);
    (show, files)
}

proof fn lemma_lf_count_concat(a: Seq<u8>, b: Seq<u8>)
    ensures
        lf_count(a + b) == lf_count(a) + lf_count(b),
    decreases b.len(),
{
    if b.len() == 0 {
        assert(a + b =~= a);
    } else {
        assert((a + b).drop_last() =~= a + b.drop_last());
        assert((a + b).last() == b.last());
        lemma_lf_count_concat(a, b.drop_last());
    }
}

proof fn lemma_lf_count_no_lf(s: Seq<u8>)
    requires
        forall|i: int| 0 <= i < s.len() ==> #[trigger] s[i] != LF,
    ensures
        lf_count(s) == 0,
    decreases s.len(),
{
    if s.len() > 0 {
        let t = s.drop_last();
        assert forall|i: int| 0 <= i < t.len() implies #[trigger] t[i] != LF by {
            assert(t[i] == s[i]);
        }
        lemma_lf_count_no_lf(t);
    }
}

/// Counts the records left in the input, all of which must be
/// LF-terminated. The count is the number of LF bytes taken from the input.
/// Counting stops at `u64::MAX` records. A final record without LF fails the
/// count: the input taken then ends in that record. A read error of the
/// input is passed on. Below `u64::MAX`, a count is returned only once the
/// reader has found the end of its input.
pub fn count_records<R: BufRead>(reader: &mut RecordReader<R>) -> (res: Result<u64, ParseError>)
    requires
        old(reader).options().final_termination == FinalTermination::RequireLf,
    ensures
        final(reader).options() == old(reader).options(),
        final(reader).consumed().len() >= old(reader).consumed().len(),
        final(reader).consumed().take(old(reader).consumed().len() as int) == old(reader).consumed(),
        res matches Ok(n) ==> n == lf_count(taken_since(*old(reader), *final(reader))),
        res matches Ok(_) ==> ({
            let taken = taken_since(*old(reader), *final(reader));
            taken.len() == 0 || taken.last() == LF
        }),
        res matches Ok(n) && n < u64::MAX ==> final(reader).at_end(),
        res matches Err(ParseError::UnterminatedFinalRecord) ==> ({
            let taken = taken_since(*old(reader), *final(reader));
            taken.len() > 0 && taken.last() != LF
        }),
{
    let ghost start = reader.consumed();
    let ghost options = reader.options();
    let mut count: u64 = 0;
    assert(reader.consumed().skip(start.len() as int) =~= Seq::<u8>::empty());
    loop
        invariant
            start == old(reader).consumed(),
            options == old(reader).options(),
            reader.options() == options,
            options.final_termination == FinalTermination::RequireLf,
            reader.consumed().len() >= start.len(),
            reader.consumed().take(start.len() as int) == start,
            count == lf_count(reader.consumed().skip(start.len() as int)),
            ({
                let taken = reader.consumed().skip(start.len() as int);
                taken.len() == 0 || taken.last() == LF
            }),
        decreases u64::MAX - count,
    {
        if count == u64::MAX {
            return Ok(count);
        }
        let ghost before = reader.consumed();
        let outcome: Result<bool, ParseError> = match reader.read_record() {
            Ok(Some(_)) => Ok(true),
            Ok(None) => Ok(false),
            Err(e) => Err(e),
        };
        let ghost after = reader.consumed();
        let ghost chunk = after.skip(before.len() as int);
        proof {
            assert(after =~= before + chunk) by {
                assert(after.take(before.len() as int) == before);
            }
            assert(after.skip(start.len() as int) =~= before.skip(start.len() as int) + chunk) by {
                assert(before.take(start.len() as int) == start);
            }
            lemma_lf_count_concat(before.skip(start.len() as int), chunk);
            if chunk.len() > 0 && chunk.last() == LF {
                lemma_lf_count_no_lf(chunk.drop_last());
                assert(forall|i: int| 0 <= i < chunk.drop_last().len() ==> chunk.drop_last()[i] == chunk[i]);
            }
        }
        match outcome {
            Ok(true) => {
                count += 1;
            },
            Ok(false) => {
                return Ok(count);
            },
            Err(e) => {
                proof {
                    if e is UnterminatedFinalRecord {
                        assert(record_in_chunk(chunk, options) is None);
                        let taken = after.skip(start.len() as int);
                        assert(taken.last() == chunk.last());
                    }
                }
                return Err(e);
            },
        }
    }
}

} // verus!
