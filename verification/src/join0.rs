//! `join0`: keep the transaction records whose key occurs in a master input.
//!
//! Both inputs are sorted by the key. For each transaction record the key is
//! resolved, its positions are shifted so that the smallest becomes field 1
//! on the master side, and the master input is advanced while its key sorts
//! before the transaction key.
use vstd::prelude::*;

use crate::digits::{all_digits, digits_value, is_all_digits, is_digit, lemma_digits_value_monotone, lemma_digits_value_push};
use crate::fields::{fields_of, slice_views};
use crate::key::{
    compare_resolved_keys, fields_at, key_field_entries, key_positions_spec, keys_sign_spec,
    lemma_keys_sign_antisymmetric, lemma_keys_sign_transitive, lemma_normalize_shape, same_attrs, KeyItem,
    normalize_key_positions_to_one, normalize_spec, position_entries, resolve_key,
    resolve_key_positions, with_positions_spec, resolve_key_with_positions, KeyAttr, KeyCompareError,
    KeyProgram, KeyResolveError, ResolvedKey, ResolvedKeyPosition,
};
use crate::record::{is_stdin_path, opt_view};
use crate::selector::has_prefix;

verus! {

// ---------------------------------------------------------------------------
// Arguments
// ---------------------------------------------------------------------------

/// The prefix `+ng` of the option that names the file descriptor for
/// records without a match.
pub open spec fn ng_prefix() -> Seq<u8> {
    seq![0x2Bu8, 0x6Eu8, 0x67u8]
}

/// The prefix `key=` of the key argument.
pub open spec fn key_prefix() -> Seq<u8> {
    seq![0x6Bu8, 0x65u8, 0x79u8, 0x3Du8]
}

/// What the first token says about the `+ng` option.
#[derive(Clone, Copy, Debug, Eq, PartialEq)]
pub enum NgOption {
    /// The token is not a `+ng` option.
    Absent,
    /// `+ng<fd>` with a valid file descriptor number.
    Fd(u32),
    /// `+ng` followed by nothing, by a non-digit, or by a number too large.
    Invalid,
}

pub open spec fn ng_spec(t: Seq<u8>) -> NgOption {
    if !has_prefix(t, ng_prefix()) {
        NgOption::Absent
    } else {
        let r = t.skip(3);
        if r.len() == 0 || !all_digits(r) || digits_value(r) > u32::MAX {
            NgOption::Invalid
        } else {
            NgOption::Fd(digits_value(r) as u32)
        }
    }
}

/// The value of a digit string, when it fits in a `u32`.
fn parse_u32(input: &[u8]) -> (res: Option<u32>)
    requires
        all_digits(input@),
    ensures
        res == (if digits_value(input@) <= u32::MAX {
            Some(digits_value(input@) as u32)
        } else {
            None
        }),
{
    let mut value: u64 = 0;
    let mut i: usize = 0;
    while i < input.len()
        invariant
            0 <= i <= input@.len(),
            all_digits(input@),
            value == digits_value(input@.take(i as int)),
            value <= u32::MAX,
        decreases input@.len() - i,
    {
        assert(is_digit(input@[i as int]));
        proof {
            lemma_digits_value_push(input@, i as int);
        }
        let next = value * 10 + (input[i] - 0x30) as u64;
        if next > u32::MAX as u64 {
            proof {
                lemma_digits_value_monotone(input@, i + 1, input@.len() as int);
                assert(input@.take(input@.len() as int) =~= input@);
            }
            return None;
        }
        value = next;
        i += 1;
    }
    assert(input@.take(i as int) =~= input@);
    Some(value as u32)
}

/// Reads the `+ng<fd>` option from the first token.
pub fn parse_optional_ng(first: &[u8]) -> (res: NgOption)
    ensures
        res == ng_spec(first@),
{
    let len = first.len();
    if !(len >= 3 && first[0] == 0x2B && first[1] == 0x6E && first[2] == 0x67) {
        proof {
            if has_prefix(first@, ng_prefix()) {
                assert(first@[0] == first@.take(3)[0]);
                assert(first@[1] == first@.take(3)[1]);
                assert(first@[2] == first@.take(3)[2]);
            }
        }
        return NgOption::Absent;
    }
    assert(first@.take(3) =~= ng_prefix());
    let rest = &first[3..len];
    assert(rest@ =~= first@.skip(3));
    if rest.len() == 0 || !is_all_digits(rest) {
        return NgOption::Invalid;
    }
    match parse_u32(rest) {
        Some(v) => NgOption::Fd(v),
        None => NgOption::Invalid,
    }
}

pub open spec fn key_argument_spec(t: Seq<u8>) -> Option<Seq<u8>> {
    if has_prefix(t, key_prefix()) && t.len() > 4 {
        Some(t.skip(4))
    } else {
        None
    }
}

/// The key text of a `key=<key>` token; `None` when the prefix is missing
/// or the key is empty.
pub fn parse_key_argument(token: &[u8]) -> (res: Option<&[u8]>)
    ensures
        opt_view(res) == key_argument_spec(token@),
{
    let len = token.len();
    if !(len >= 4 && token[0] == 0x6B && token[1] == 0x65 && token[2] == 0x79 && token[3] == 0x3D) {
        proof {
            if has_prefix(token@, key_prefix()) {
                assert(token@[0] == token@.take(4)[0]);
                assert(token@[1] == token@.take(4)[1]);
                assert(token@[2] == token@.take(4)[2]);
                assert(token@[3] == token@.take(4)[3]);
            }
        }
        return None;
    }
    assert(token@.take(4) =~= key_prefix());
    if len == 4 {
        return None;
    }
    let key = &token[4..len];
    assert(key@ =~= token@.skip(4));
    Some(key)
}

/// Why the arguments of `join0` are refused.
#[derive(Clone, Copy, Debug, Eq, PartialEq)]
pub enum JoinArgError {
    InvalidNgFd,
    MissingKey,
    Usage,
}

impl JoinArgError {
    /// The message a command reports for this error.
    pub fn message(&self) -> (m: &'static str)
        ensures
            m@ == match self {
                JoinArgError::InvalidNgFd => "invalid +ng file descriptor"@,
                JoinArgError::MissingKey => "missing key=<key> argument"@,
                JoinArgError::Usage => "usage: join0 [+ng<fd>] key=<key> <master> [<tran>]"@,
            },
    {
        match self {
            JoinArgError::InvalidNgFd => "invalid +ng file descriptor",
            JoinArgError::MissingKey => "missing key=<key> argument",
            JoinArgError::Usage => "usage: join0 [+ng<fd>] key=<key> <master> [<tran>]",
        }
    }
}

/// The arguments of `join0`.
#[derive(Clone, Copy, Debug)]
pub struct JoinArgs<'a> {
    pub ng_fd: Option<u32>,
    pub key: &'a [u8],
    pub master: &'a [u8],
    pub tran: Option<&'a [u8]>,
}

/// The arguments as plain values: file descriptor, key, master, transaction.
pub open spec fn join_args_view<'a>(a: JoinArgs<'a>) -> (Option<u32>, Seq<u8>, Seq<u8>, Option<Seq<u8>>) {
    (a.ng_fd, a.key@, a.master@, opt_view(a.tran))
}

/// How `join0` reads its tokens: an optional `+ng<fd>` first, then
/// `key=<key>`, the master and optionally the transaction input.
pub open spec fn join_args_spec(tokens: Seq<Seq<u8>>) -> Result<(Option<u32>, Seq<u8>, Seq<u8>, Option<Seq<u8>>), JoinArgError> {
    let ng = if tokens.len() == 0 {
        NgOption::Absent
    } else {
        ng_spec(tokens[0])
    };
    match ng {
        NgOption::Invalid => Err(JoinArgError::InvalidNgFd),
        _ => {
            let (fd, rest) = match ng {
                NgOption::Fd(v) => (Some(v), tokens.drop_first()),
                _ => (None, tokens),
            };
            if rest.len() == 2 || rest.len() == 3 {
                match key_argument_spec(rest[0]) {
                    None => Err(JoinArgError::MissingKey),
                    Some(k) => Ok((fd, k, rest[1], if rest.len() == 3 { Some(rest[2]) } else { None })),
                }
            } else {
                Err(JoinArgError::Usage)
            }
        },
    }
}

/// Reads the command-line tokens of `join0`.
pub fn parse_join_arguments<'a>(tokens: &[&'a [u8]]) -> (res: Result<JoinArgs<'a>, JoinArgError>)
    ensures
        res matches Ok(a) ==> join_args_spec(slice_views(tokens@)) == Ok::<(Option<u32>, Seq<u8>, Seq<u8>, Option<Seq<u8>>), JoinArgError>(join_args_view(a)),
        res matches Err(e) ==> join_args_spec(slice_views(tokens@)) == Err::<(Option<u32>, Seq<u8>, Seq<u8>, Option<Seq<u8>>), JoinArgError>(e),
{
    let ghost tv = slice_views(tokens@);
    let ng = if tokens.len() == 0 {
        NgOption::Absent
    } else {
        parse_optional_ng(tokens[0])
    };
    let (fd, start): (Option<u32>, usize) = match ng {
        NgOption::Invalid => return Err(JoinArgError::InvalidNgFd),
        NgOption::Fd(v) => (Some(v), 1),
        NgOption::Absent => (None, 0),
    };
    let n = tokens.len() - start;
    let ghost rest = tv.skip(start as int);
    proof {
        if start == 1 {
            assert(rest =~= tv.drop_first());
        } else {
            assert(rest =~= tv);
        }
    }
    if n != 2 && n != 3 {
        return Err(JoinArgError::Usage);
    }
    assert(rest[0] == tokens@[start as int]@);
    assert(rest[1] == tokens@[start + 1]@);
    let key = match parse_key_argument(tokens[start]) {
        Some(k) => k,
        None => return Err(JoinArgError::MissingKey),
    };
    let tran = if n == 3 {
        assert(rest[2] == tokens@[start + 2]@);
        Some(tokens[start + 2])
    } else {
        None
    };
    Ok(JoinArgs { ng_fd: fd, key, master: tokens[start + 1], tran })
}

/// Both inputs would read standard input: the master is `-`, and the
/// transaction input is `-` or left out.
pub fn both_inputs_are_stdin(master: &[u8], tran: Option<&[u8]>) -> (res: bool)
    ensures
        res == (master@ == seq![0x2Du8] && match tran {
            Some(t) => t@ == seq![0x2Du8],
            None => true,
        }),
{
    is_stdin_path(master) && match tran {
        Some(t) => is_stdin_path(t),
        None => true,
    }
}

// ---------------------------------------------------------------------------
// Matching
// ---------------------------------------------------------------------------

/// The key of one transaction record and the positions it maps to on the
/// master side.
pub struct TranKey<'a> {
    pub master_positions: Vec<ResolvedKeyPosition>,
    pub key: ResolvedKey<'a>,
}

/// Resolves the key of a transaction record, and maps its positions onto the
/// master side so that the smallest becomes field 1.
pub fn resolve_tran_key<'a>(program: &KeyProgram, tran: &'a [u8]) -> (res: Result<TranKey<'a>, KeyResolveError>)
    ensures
        res matches Ok(t) ==> ({
            let fields = fields_of(tran@);
            key_positions_spec(program@, fields.len()) matches Ok(ps)
                && position_entries(t.master_positions@) == normalize_spec(ps)
                && key_field_entries(t.key@) == fields_at(ps, fields)
        }),
        res matches Err(e) ==> key_positions_spec(program@, fields_of(tran@).len()) == Err::<Seq<(nat, KeyAttr)>, KeyResolveError>(e),
{
    let positions = match resolve_key_positions(program, tran) {
        Ok(ps) => ps,
        Err(e) => return Err(e),
    };
    let master_positions = normalize_key_positions_to_one(positions.as_slice());
    let key = match resolve_key(program, tran) {
        Ok(k) => k,
        Err(e) => return Err(e),
    };
    Ok(TranKey { master_positions, key })
}

/// What to do with the current master record.
#[derive(Clone, Copy, Debug, Eq, PartialEq)]
pub enum JoinStep {
    /// Its key sorts before the transaction key: read the next master record.
    Advance,
    /// Its key equals the transaction key.
    Matched,
    /// Its key sorts after the transaction key, or the master is exhausted.
    Unmatched,
}

/// Why a master record cannot be compared with a transaction key.
#[derive(Debug, Eq, PartialEq)]
pub enum JoinError {
    Resolve(KeyResolveError),
    Compare(KeyCompareError),
}

/// The step for the current master record (`None` once the master input is
/// exhausted) against a transaction key.
pub open spec fn step_spec(mps: Seq<(nat, KeyAttr)>, master: Option<Seq<u8>>, tran_key: Seq<(Seq<u8>, nat, KeyAttr)>) -> Result<JoinStep, JoinError> {
    match master {
        None => Ok(JoinStep::Unmatched),
        Some(m) => match with_positions_spec(mps, fields_of(m)) {
            Err(e) => Err(JoinError::Resolve(e)),
            Ok(mk) => match keys_sign_spec(mk, tran_key) {
                Err(e) => Err(JoinError::Compare(e)),
                Ok(s) => if s < 0 {
                    Ok(JoinStep::Advance)
                } else if s == 0 {
                    Ok(JoinStep::Matched)
                } else {
                    Ok(JoinStep::Unmatched)
                },
            },
        },
    }
}

/// Compares the current master record with a transaction key.
pub fn step_master(master_positions: &[ResolvedKeyPosition], master: Option<&[u8]>, tran_key: &ResolvedKey<'_>) -> (res: Result<JoinStep, JoinError>)
    ensures
        res == step_spec(position_entries(master_positions@), opt_view(master), key_field_entries(tran_key@)),
{
    let record = match master {
        None => return Ok(JoinStep::Unmatched),
        Some(r) => r,
    };
    let master_key = match resolve_key_with_positions(master_positions, record) {
        Ok(k) => k,
        Err(e) => return Err(JoinError::Resolve(e)),
    };
    match compare_resolved_keys(&master_key, tran_key) {
        Err(e) => Err(JoinError::Compare(e)),
        Ok(std::cmp::Ordering::Less) => Ok(JoinStep::Advance),
        Ok(std::cmp::Ordering::Equal) => Ok(JoinStep::Matched),
        Ok(std::cmp::Ordering::Greater) => Ok(JoinStep::Unmatched),
    }
}

/// Why the merge may pass over master records for good: when transaction
/// keys come in sorted order, a master key that sorts before one
/// transaction key sorts before every later one as well.
pub proof fn lemma_passed_master_stays_passed(m: Seq<(Seq<u8>, nat, KeyAttr)>, t1: Seq<(Seq<u8>, nat, KeyAttr)>, t2: Seq<(Seq<u8>, nat, KeyAttr)>)
    requires
        same_attrs(m, t1),
        same_attrs(t1, t2),
        keys_sign_spec(m, t1) matches Ok(s) && s < 0,
        keys_sign_spec(t1, t2) matches Ok(s) && s <= 0,
    ensures
        keys_sign_spec(m, t2) matches Ok(s) && s < 0,
{
    lemma_keys_sign_transitive(m, t1, t2);
}

// ---------------------------------------------------------------------------
// The whole run
// ---------------------------------------------------------------------------

/// The key of a transaction record: the positions it maps to on the master
/// side, and its key fields.
pub open spec fn tran_key_spec(items: Seq<KeyItem>, t: Seq<u8>) -> Result<(Seq<(nat, KeyAttr)>, Seq<(Seq<u8>, nat, KeyAttr)>), KeyResolveError> {
    let fields = fields_of(t);
    match key_positions_spec(items, fields.len()) {
        Ok(ps) => Ok((normalize_spec(ps), fields_at(ps, fields))),
        Err(e) => Err(e),
    }
}

/// Advancing the master input for one transaction key, step by step: how
/// many master records are passed over, and whether the record reached then
/// matches.
pub open spec fn advance_spec(mps: Seq<(nat, KeyAttr)>, ms: Seq<Seq<u8>>, tran_key: Seq<(Seq<u8>, nat, KeyAttr)>) -> Result<(nat, bool), JoinError>
    decreases ms.len(),
{
    if ms.len() == 0 {
        Ok((0, false))
    } else {
        match step_spec(mps, Some(ms[0]), tran_key) {
            Err(e) => Err(e),
            Ok(JoinStep::Advance) => match advance_spec(mps, ms.drop_first(), tran_key) {
                Ok((k, b)) => Ok((k + 1, b)),
                Err(e) => Err(e),
            },
            Ok(JoinStep::Matched) => Ok((0, true)),
            Ok(JoinStep::Unmatched) => Ok((0, false)),
        }
    }
}

/// A run of `join0` over master records `ms` and transaction records `ts`:
/// for each transaction record, in order, whether it matched (and is
/// written to standard output) or not (and goes to the `+ng` output); or the
/// first error.
pub open spec fn join_spec(items: Seq<KeyItem>, ms: Seq<Seq<u8>>, ts: Seq<Seq<u8>>) -> Result<Seq<bool>, JoinError>
    decreases ts.len(),
{
    if ts.len() == 0 {
        Ok(Seq::empty())
    } else {
        match tran_key_spec(items, ts[0]) {
            Err(e) => Err(JoinError::Resolve(e)),
            Ok((mps, tk)) => match advance_spec(mps, ms, tk) {
                Err(e) => Err(e),
                Ok((k, b)) => match join_spec(items, ms.skip(k as int), ts.drop_first()) {
                    Ok(rest) => Ok(seq![b] + rest),
                    Err(e) => Err(e),
                },
            },
        }
    }
}

/// The key fields of a transaction record.
pub open spec fn tran_key_of(items: Seq<KeyItem>, t: Seq<u8>) -> Seq<(Seq<u8>, nat, KeyAttr)> {
    tran_key_spec(items, t)->Ok_0.1
}

/// The key fields of a master record at the given positions.
pub open spec fn master_key_of(mps: Seq<(nat, KeyAttr)>, m: Seq<u8>) -> Seq<(Seq<u8>, nat, KeyAttr)> {
    with_positions_spec(mps, fields_of(m))->Ok_0
}

/// Some master record has a key equal to that of the transaction record.
pub open spec fn equal_master(items: Seq<KeyItem>, ms: Seq<Seq<u8>>, mps: Seq<(nat, KeyAttr)>, t: Seq<u8>) -> bool {
    exists|j: int| 0 <= j < ms.len() && keys_sign_spec(master_key_of(mps, #[trigger] ms[j]), tran_key_of(items, t))
        == Ok::<int, KeyCompareError>(0)
}

/// What `join0` assumes of its inputs: every key resolves, every transaction
/// record maps to the same master positions `mps`, the keys compare (numeric
/// fields hold numbers), the master keys are strictly ascending and the
/// transaction keys ascending.
pub open spec fn join_assumptions(items: Seq<KeyItem>, ms: Seq<Seq<u8>>, ts: Seq<Seq<u8>>, mps: Seq<(nat, KeyAttr)>) -> bool {
    &&& forall|i: int| 0 <= i < ts.len() ==> (#[trigger] tran_key_spec(items, ts[i])) is Ok && tran_key_spec(items, ts[i])->Ok_0.0 == mps
    &&& forall|j: int| 0 <= j < ms.len() ==> (#[trigger] with_positions_spec(mps, fields_of(ms[j]))) is Ok
    &&& forall|j1: int, j2: int| 0 <= j1 < j2 < ms.len() ==> (keys_sign_spec(master_key_of(mps, #[trigger] ms[j1]), master_key_of(mps, #[trigger] ms[j2])) matches Ok(s) && s < 0)
    &&& forall|i1: int, i2: int| 0 <= i1 < i2 < ts.len() ==> (keys_sign_spec(tran_key_of(items, #[trigger] ts[i1]), tran_key_of(items, #[trigger] ts[i2])) matches Ok(s) && s <= 0)
    &&& forall|i: int, j: int| 0 <= i < ts.len() && 0 <= j < ms.len() ==> (keys_sign_spec(master_key_of(mps, #[trigger] ms[j]), tran_key_of(items, #[trigger] ts[i])) is Ok)
}

/// The key fields carry the attributes of the given positions.
pub open spec fn key_attrs_match(k: Seq<(Seq<u8>, nat, KeyAttr)>, mps: Seq<(nat, KeyAttr)>) -> bool {
    &&& k.len() == mps.len()
    &&& forall|x: int| 0 <= x < k.len() ==> (#[trigger] k[x]).2 == mps[x].1
}

proof fn lemma_master_key_attrs(mps: Seq<(nat, KeyAttr)>, m: Seq<u8>)
    requires
        with_positions_spec(mps, fields_of(m)) is Ok,
    ensures
        key_attrs_match(master_key_of(mps, m), mps),
{
}

proof fn lemma_tran_key_attrs(items: Seq<KeyItem>, t: Seq<u8>, mps: Seq<(nat, KeyAttr)>)
    requires
        tran_key_spec(items, t) is Ok,
        tran_key_spec(items, t)->Ok_0.0 == mps,
    ensures
        key_attrs_match(tran_key_of(items, t), mps),
{
    let ps = key_positions_spec(items, fields_of(t).len())->Ok_0;
    if ps.len() > 0 {
        lemma_normalize_shape(ps);
    }
}

proof fn lemma_attrs_same(a: Seq<(Seq<u8>, nat, KeyAttr)>, b: Seq<(Seq<u8>, nat, KeyAttr)>, mps: Seq<(nat, KeyAttr)>)
    requires
        key_attrs_match(a, mps),
        key_attrs_match(b, mps),
    ensures
        same_attrs(a, b),
{
}

/// Advancing from master record `c` for transaction record `i`, when every
/// master record before `c` sorts below its key: the records passed over
/// all sort below it, and the record reached matches exactly when some
/// master key equals it.
#[verifier::spinoff_prover]
proof fn lemma_advance(items: Seq<KeyItem>, ms: Seq<Seq<u8>>, ts: Seq<Seq<u8>>, mps: Seq<(nat, KeyAttr)>, i: int, c: nat)
    requires
        join_assumptions(items, ms, ts, mps),
        0 <= i < ts.len(),
        c <= ms.len(),
        forall|j: int| 0 <= j < c ==> (keys_sign_spec(master_key_of(mps, #[trigger] ms[j]), tran_key_of(items, ts[i])) matches Ok(s) && s < 0),
    ensures
        advance_spec(mps, ms.skip(c as int), tran_key_of(items, ts[i])) matches Ok((k, b)) && c + k <= ms.len()
            && (forall|j: int| 0 <= j < c + k ==> (keys_sign_spec(master_key_of(mps, #[trigger] ms[j]), tran_key_of(items, ts[i])) matches Ok(s) && s < 0))
            && b == equal_master(items, ms, mps, ts[i]),
    decreases ms.len() - c,
{
    let tk = tran_key_of(items, ts[i]);
    let t = ts[i];
    assert(tran_key_spec(items, t) is Ok);
    lemma_tran_key_attrs(items, t, mps);
    let rest = ms.skip(c as int);
    if c == ms.len() {
        assert(rest.len() == 0);
        assert(!equal_master(items, ms, mps, t)) by {
            if equal_master(items, ms, mps, t) {
                let j = choose|j: int| 0 <= j < ms.len() && keys_sign_spec(master_key_of(mps, #[trigger] ms[j]), tran_key_of(items, t))
                    == Ok::<int, KeyCompareError>(0);
                assert(keys_sign_spec(master_key_of(mps, ms[j]), tk) matches Ok(s) && s < 0);
            }
        }
    } else {
        assert(rest[0] == ms[c as int]);
        assert(rest.drop_first() =~= ms.skip(c + 1 as int));
        let mc = ms[c as int];
        let mkc = master_key_of(mps, mc);
        assert(with_positions_spec(mps, fields_of(mc)) is Ok);
        assert(keys_sign_spec(mkc, tk) is Ok);
        let s = keys_sign_spec(mkc, tk)->Ok_0;
        if s < 0 {
            lemma_advance(items, ms, ts, mps, i, c + 1);
        } else if s == 0 {
            assert(equal_master(items, ms, mps, t)) by {
                assert(keys_sign_spec(master_key_of(mps, ms[c as int]), tran_key_of(items, t)) == Ok::<int, KeyCompareError>(0));
            }
        } else {
            lemma_master_key_attrs(mps, mc);
            lemma_attrs_same(mkc, tk, mps);
            lemma_attrs_same(tk, mkc, mps);
            lemma_keys_sign_antisymmetric(mkc, tk);
            assert forall|j: int| c < j < ms.len() implies (keys_sign_spec(master_key_of(mps, #[trigger] ms[j]), tk) matches Ok(s2) && s2 > 0) by {
                let mj = ms[j];
                let mkj = master_key_of(mps, mj);
                assert(with_positions_spec(mps, fields_of(mj)) is Ok);
                lemma_master_key_attrs(mps, mj);
                lemma_attrs_same(mkc, mkj, mps);
                lemma_attrs_same(tk, mkj, mps);
                assert(keys_sign_spec(mkc, mkj) matches Ok(s1) && s1 < 0);
                lemma_keys_sign_transitive(tk, mkc, mkj);
                lemma_keys_sign_antisymmetric(tk, mkj);
            }
            assert(!equal_master(items, ms, mps, t)) by {
                if equal_master(items, ms, mps, t) {
                    let j = choose|j: int| 0 <= j < ms.len() && keys_sign_spec(master_key_of(mps, #[trigger] ms[j]), tran_key_of(items, t))
                        == Ok::<int, KeyCompareError>(0);
                    if j < c {
                        assert(keys_sign_spec(master_key_of(mps, ms[j]), tk) matches Ok(s) && s < 0);
                    } else if j > c {
                        assert(keys_sign_spec(master_key_of(mps, ms[j]), tk) matches Ok(s2) && s2 > 0);
                    }
                }
            }
        }
    }
}

/// The run from transaction record `i` on, with the master input at record
/// `c`, when every master record before `c` sorts below the key of record
/// `i`.
#[verifier::spinoff_prover]
#[verifier::rlimit(40)]
proof fn lemma_join_from(items: Seq<KeyItem>, ms: Seq<Seq<u8>>, ts: Seq<Seq<u8>>, mps: Seq<(nat, KeyAttr)>, i: int, c: nat)
    requires
        join_assumptions(items, ms, ts, mps),
        0 <= i <= ts.len(),
        c <= ms.len(),
        i < ts.len() ==> forall|j: int| 0 <= j < c ==> (keys_sign_spec(master_key_of(mps, #[trigger] ms[j]), tran_key_of(items, ts[i])) matches Ok(s) && s < 0),
    ensures
        join_spec(items, ms.skip(c as int), ts.skip(i)) matches Ok(flags) && flags.len() == ts.len() - i
            && forall|x: int| 0 <= x < flags.len() ==> flags[x] == equal_master(items, ms, mps, #[trigger] ts[i + x]),
    decreases ts.len() - i,
{
    let tsk = ts.skip(i);
    if i == ts.len() {
        assert(tsk.len() == 0);
    } else {
        let t = ts[i];
        assert(tsk[0] == t);
        assert(tsk.drop_first() =~= ts.skip(i + 1));
        assert(tran_key_spec(items, t) is Ok);
        let tk = tran_key_of(items, t);
        lemma_advance(items, ms, ts, mps, i, c);
        let (k, b) = advance_spec(mps, ms.skip(c as int), tk)->Ok_0;
        if i + 1 < ts.len() {
            let t1 = ts[i + 1];
            assert(tran_key_spec(items, t1) is Ok);
            lemma_tran_key_attrs(items, t, mps);
            lemma_tran_key_attrs(items, t1, mps);
            let tk1 = tran_key_of(items, t1);
            lemma_attrs_same(tk, tk1, mps);
            assert(keys_sign_spec(tk, tk1) matches Ok(s) && s <= 0);
            assert forall|j: int| 0 <= j < c + k implies (keys_sign_spec(master_key_of(mps, #[trigger] ms[j]), tk1) matches Ok(s) && s < 0) by {
                let mj = ms[j];
                assert(with_positions_spec(mps, fields_of(mj)) is Ok);
                lemma_master_key_attrs(mps, mj);
                lemma_attrs_same(master_key_of(mps, mj), tk, mps);
                lemma_passed_master_stays_passed(master_key_of(mps, mj), tk, tk1);
            }
        }
        assert(ms.skip(c as int).skip(k as int) =~= ms.skip((c + k) as int));
        lemma_join_from(items, ms, ts, mps, i + 1, c + k);
        let rest = join_spec(items, ms.skip((c + k) as int), ts.skip(i + 1))->Ok_0;
        let flags = seq![b] + rest;
        assert forall|x: int| 0 <= x < flags.len() implies flags[x] == equal_master(items, ms, mps, #[trigger] ts[i + x]) by {
            if x > 0 {
                assert(flags[x] == rest[x - 1]);
                assert(ts[(i + 1) + (x - 1)] == ts[i + x]);
            }
        }
    }
}

/// The records whose flag is `want`, in order.
pub open spec fn records_flagged(ts: Seq<Seq<u8>>, flags: Seq<bool>, want: bool) -> Seq<Seq<u8>>
    decreases ts.len(),
{
    if ts.len() == 0 || flags.len() == 0 {
        Seq::empty()
    } else {
        let rest = records_flagged(ts.drop_first(), flags.drop_first(), want);
        if flags[0] == want {
            seq![ts[0]] + rest
        } else {
            rest
        }
    }
}

/// The transaction records for which some master key is equal (`want`) or
/// none is (`!want`), in order.
pub open spec fn records_with_equal_master(items: Seq<KeyItem>, ms: Seq<Seq<u8>>, mps: Seq<(nat, KeyAttr)>, ts: Seq<Seq<u8>>, want: bool) -> Seq<Seq<u8>>
    decreases ts.len(),
{
    if ts.len() == 0 {
        Seq::empty()
    } else {
        let rest = records_with_equal_master(items, ms, mps, ts.drop_first(), want);
        if equal_master(items, ms, mps, ts[0]) == want {
            seq![ts[0]] + rest
        } else {
            rest
        }
    }
}

proof fn lemma_flagged_records(items: Seq<KeyItem>, ms: Seq<Seq<u8>>, mps: Seq<(nat, KeyAttr)>, ts: Seq<Seq<u8>>, flags: Seq<bool>, want: bool)
    requires
        flags.len() == ts.len(),
        forall|i: int| 0 <= i < ts.len() ==> flags[i] == equal_master(items, ms, mps, #[trigger] ts[i]),
    ensures
        records_flagged(ts, flags, want) == records_with_equal_master(items, ms, mps, ts, want),
    decreases ts.len(),
{
    if ts.len() > 0 {
        let (t1, f1) = (ts.drop_first(), flags.drop_first());
        assert forall|i: int| 0 <= i < t1.len() implies f1[i] == equal_master(items, ms, mps, #[trigger] t1[i]) by {
            assert(t1[i] == ts[i + 1]);
        }
        lemma_flagged_records(items, ms, mps, t1, f1, want);
        assert(flags[0] == equal_master(items, ms, mps, ts[0]));
    }
}

/// What `join0` is for: when its inputs meet its assumptions, a run decides
/// for every transaction record, in order, that it matches exactly when
/// some master record has an equal key. Matching records are written to
/// standard output as read, in transaction order; the others go, in the
/// same order, to the `+ng` output.
pub proof fn lemma_join_finds_equal_keys(items: Seq<KeyItem>, ms: Seq<Seq<u8>>, ts: Seq<Seq<u8>>, mps: Seq<(nat, KeyAttr)>)
    requires
        join_assumptions(items, ms, ts, mps),
    ensures
        join_spec(items, ms, ts) matches Ok(flags) && flags.len() == ts.len()
            && (forall|i: int| 0 <= i < ts.len() ==> flags[i] == equal_master(items, ms, mps, #[trigger] ts[i]))
            && records_flagged(ts, flags, true) == records_with_equal_master(items, ms, mps, ts, true)
            && records_flagged(ts, flags, false) == records_with_equal_master(items, ms, mps, ts, false),
{
    assert(ms.skip(0) =~= ms);
    assert(ts.skip(0) =~= ts);
    lemma_join_from(items, ms, ts, mps, 0, 0);
    let flags = join_spec(items, ms, ts)->Ok_0;
    assert forall|i: int| 0 <= i < ts.len() implies flags[i] == equal_master(items, ms, mps, #[trigger] ts[i]) by {
        assert(ts[0 + i] == ts[i]);
    }
    lemma_flagged_records(items, ms, mps, ts, flags, true);
    lemma_flagged_records(items, ms, mps, ts, flags, false);
}

} // verus!
