//! Field splitting: within one record, runs of SPACE (0x20) bytes separate
//! fields, and leading or trailing SPACE bytes are ignored. Every other byte
//! is ordinary data.
use vstd::prelude::*;

verus! {

/// The only byte that separates fields.
pub const SPACE: u8 = 0x20;

/// Number of SPACE bytes at the front of `s`.
pub open spec fn leading_spaces(s: Seq<u8>) -> nat
    decreases s.len(),
{
    if s.len() > 0 && s[0] == SPACE {
        1 + leading_spaces(s.drop_first())
    } else {
        0
    }
}

/// Number of non-SPACE bytes at the front of `s`.
pub open spec fn leading_data(s: Seq<u8>) -> nat
    decreases s.len(),
{
    if s.len() > 0 && s[0] != SPACE {
        1 + leading_data(s.drop_first())
    } else {
        0
    }
}

/// The fields of a record: the maximal runs of non-SPACE bytes, in order.
pub open spec fn fields_of(s: Seq<u8>) -> Seq<Seq<u8>>
    decreases s.len(),
{
    let t = s.skip(leading_spaces(s) as int);
    if leading_spaces(s) >= s.len() {
        Seq::empty()
    } else {
        let n = leading_data(t);
        proof {
            lemma_leading_spaces_bound(s);
            lemma_leading_data_bound(t);
        }
        seq![t.take(n as int)] + fields_of(t.skip(n as int))
    }
}

/// A byte string is a well-formed field: non-empty and free of SPACE bytes.
pub open spec fn is_field(f: Seq<u8>) -> bool {
    &&& f.len() > 0
    &&& forall|i: int| 0 <= i < f.len() ==> #[trigger] f[i] != SPACE
}

/// Views of a sequence of borrowed byte strings.
pub open spec fn slice_views(s: Seq<&[u8]>) -> Seq<Seq<u8>> {
    s.map_values(|f: &[u8]| f@)
}

/// The leading SPACE run lies within `s` and is followed by a non-SPACE
/// byte, if anything.
pub proof fn lemma_leading_spaces_bound(s: Seq<u8>)
    ensures
        leading_spaces(s) <= s.len(),
        leading_spaces(s) < s.len() ==> s[leading_spaces(s) as int] != SPACE,
        forall|i: int| 0 <= i < leading_spaces(s) ==> #[trigger] s[i] == SPACE,
    decreases s.len(),
{
    if s.len() > 0 && s[0] == SPACE {
        lemma_leading_spaces_bound(s.drop_first());
        assert forall|i: int| 0 <= i < leading_spaces(s) implies #[trigger] s[i] == SPACE by {
            if i > 0 {
                assert(s[i] == s.drop_first()[i - 1]);
            }
        }
    }
}

/// The leading data run lies within `s` and is followed by a SPACE byte, if
/// anything.
pub proof fn lemma_leading_data_bound(s: Seq<u8>)
    ensures
        leading_data(s) <= s.len(),
        s.len() > 0 && s[0] != SPACE ==> leading_data(s) >= 1,
        leading_data(s) < s.len() ==> s[leading_data(s) as int] == SPACE,
        forall|i: int| 0 <= i < leading_data(s) ==> #[trigger] s[i] != SPACE,
    decreases s.len(),
{
    if s.len() > 0 && s[0] != SPACE {
        lemma_leading_data_bound(s.drop_first());
        assert forall|i: int| 0 <= i < leading_data(s) implies #[trigger] s[i] != SPACE by {
            if i > 0 {
                assert(s[i] == s.drop_first()[i - 1]);
            }
        }
    }
}

/// `leading_spaces` is characterised by the position of the first non-SPACE byte.
pub proof fn lemma_leading_spaces_is(s: Seq<u8>, k: int)
    requires
        0 <= k <= s.len(),
        forall|i: int| 0 <= i < k ==> #[trigger] s[i] == SPACE,
        k == s.len() || s[k] != SPACE,
    ensures
        leading_spaces(s) == k,
    decreases k,
{
    if k > 0 {
        assert forall|i: int| 0 <= i < k - 1 implies #[trigger] s.drop_first()[i] == SPACE by {
            assert(s[i + 1] == SPACE);
        }
        lemma_leading_spaces_is(s.drop_first(), k - 1);
    }
}

/// `leading_data` is characterised by the position of the first SPACE byte.
pub proof fn lemma_leading_data_is(s: Seq<u8>, k: int)
    requires
        0 <= k <= s.len(),
        forall|i: int| 0 <= i < k ==> #[trigger] s[i] != SPACE,
        k == s.len() || s[k] == SPACE,
    ensures
        leading_data(s) == k,
    decreases k,
{
    if k > 0 {
        assert forall|i: int| 0 <= i < k - 1 implies #[trigger] s.drop_first()[i] != SPACE by {
            assert(s[i + 1] != SPACE);
        }
        lemma_leading_data_is(s.drop_first(), k - 1);
    }
}

/// Dropping the leading SPACE bytes does not change the fields.
pub proof fn lemma_fields_skip_spaces(s: Seq<u8>)
    ensures
        fields_of(s.skip(leading_spaces(s) as int)) == fields_of(s),
{
    let t = s.skip(leading_spaces(s) as int);
    lemma_leading_spaces_bound(s);
    lemma_leading_spaces_is(t, 0);
    assert(t.skip(0) =~= t);
}

/// A record made only of SPACE bytes has no fields.
pub proof fn lemma_fields_all_spaces(s: Seq<u8>)
    requires
        forall|i: int| 0 <= i < s.len() ==> #[trigger] s[i] == SPACE,
    ensures
        fields_of(s) == Seq::<Seq<u8>>::empty(),
{
    lemma_leading_spaces_is(s, s.len() as int);
}

/// Every field is non-empty and free of SPACE bytes, and there are at most
/// as many fields as bytes.
pub proof fn lemma_fields_shape(s: Seq<u8>)
    ensures
        fields_of(s).len() <= s.len(),
        forall|j: int| 0 <= j < fields_of(s).len() ==> is_field(#[trigger] fields_of(s)[j]),
    decreases s.len(),
{
    lemma_leading_spaces_bound(s);
    let t = s.skip(leading_spaces(s) as int);
    if leading_spaces(s) < s.len() {
        let n = leading_data(t);
        lemma_leading_data_bound(t);
        lemma_fields_shape(t.skip(n as int));
        let f = t.take(n as int);
        assert forall|i: int| 0 <= i < f.len() implies #[trigger] f[i] != SPACE by {
            assert(f[i] == t[i]);
        }
        let rest = fields_of(t.skip(n as int));
        assert forall|j: int| 0 <= j < fields_of(s).len() implies is_field(
            #[trigger] fields_of(s)[j],
        ) by {
            if j > 0 {
                assert(fields_of(s)[j] == rest[j - 1]);
            }
        }
    }
}

/// Fields written one after another with a single SPACE between them.
pub open spec fn join_with_spaces(fs: Seq<Seq<u8>>) -> Seq<u8>
    decreases fs.len(),
{
    if fs.len() == 0 {
        Seq::empty()
    } else if fs.len() == 1 {
        fs[0]
    } else {
        fs[0] + seq![SPACE] + join_with_spaces(fs.drop_first())
    }
}

/// A byte string that is a well-formed field is a record of exactly that one
/// field: every byte but SPACE (TAB, CR, NUL, non-UTF-8 bytes) is data.
pub proof fn lemma_single_field(f: Seq<u8>)
    requires
        is_field(f),
    ensures
        fields_of(f) == seq![f],
{
    lemma_leading_spaces_is(f, 0);
    assert(f.skip(0) =~= f);
    lemma_leading_data_is(f, f.len() as int);
    assert(f.take(f.len() as int) =~= f);
    let e = f.skip(f.len() as int);
    assert(e =~= Seq::<u8>::empty());
    lemma_leading_spaces_is(e, 0);
    assert(fields_of(e) =~= Seq::<Seq<u8>>::empty());
    assert(f.skip(leading_spaces(f) as int) =~= f);
    assert(fields_of(f) == seq![f.take(f.len() as int)] + fields_of(e));
    assert(seq![f] + Seq::<Seq<u8>>::empty() =~= seq![f]);
}

/// A SPACE byte separates fields: the fields of `a`, a SPACE, then `b` are
/// the fields of `a` followed by the fields of `b`. With `a` or `b` empty,
/// this says that leading and trailing SPACE bytes are ignored.
pub proof fn lemma_space_separates(a: Seq<u8>, b: Seq<u8>)
    ensures
        fields_of(a + seq![SPACE] + b) == fields_of(a) + fields_of(b),
    decreases a.len(),
{
    let s = a + seq![SPACE] + b;
    let k = leading_spaces(a);
    lemma_leading_spaces_bound(a);
    if k >= a.len() {
        // `a` holds only SPACE bytes.
        lemma_fields_all_spaces(a);
        let kb = leading_spaces(b) as int;
        lemma_leading_spaces_bound(b);
        assert forall|i: int| 0 <= i < a.len() + 1 + kb implies #[trigger] s[i] == SPACE by {
            if i > a.len() {
                assert(s[i] == b[i - a.len() - 1]);
            }
        }
        if a.len() + 1 + kb < s.len() {
            assert(s[a.len() + 1 + kb] == b[kb]);
        }
        lemma_leading_spaces_is(s, a.len() + 1 + kb);
        lemma_fields_skip_spaces(s);
        lemma_fields_skip_spaces(b);
        assert(s.skip(a.len() + 1 + kb) =~= b.skip(kb));
        assert(Seq::<Seq<u8>>::empty() + fields_of(b) =~= fields_of(b));
    } else {
        let ta = a.skip(k as int);
        let n = leading_data(ta);
        lemma_leading_data_bound(ta);
        assert(ta[0] == a[k as int]);
        // `s` starts with the same SPACE bytes as `a`.
        assert forall|i: int| 0 <= i < k implies #[trigger] s[i] == SPACE by {
            assert(s[i] == a[i]);
        }
        assert(s[k as int] == a[k as int]);
        lemma_leading_spaces_is(s, k as int);
        let ts = s.skip(k as int);
        assert(ts =~= ta + seq![SPACE] + b);
        // Its first field is that of `a`.
        assert forall|i: int| 0 <= i < n implies #[trigger] ts[i] != SPACE by {
            assert(ts[i] == ta[i]);
        }
        if n < ta.len() {
            assert(ts[n as int] == ta[n as int]);
        } else {
            assert(ts[n as int] == SPACE);
        }
        lemma_leading_data_is(ts, n as int);
        assert(ts.take(n as int) =~= ta.take(n as int));
        let ra = ta.skip(n as int);
        assert(ts.skip(n as int) =~= ra + seq![SPACE] + b);
        lemma_space_separates(ra, b);
        assert(seq![ta.take(n as int)] + (fields_of(ra) + fields_of(b)) =~= (seq![ta.take(n as int)]
            + fields_of(ra)) + fields_of(b));
    }
}

/// Well-formed fields joined with single SPACE bytes split back into the
/// same fields.
pub proof fn lemma_join_then_split(fs: Seq<Seq<u8>>)
    requires
        forall|i: int| 0 <= i < fs.len() ==> is_field(#[trigger] fs[i]),
    ensures
        fields_of(join_with_spaces(fs)) == fs,
    decreases fs.len(),
{
    if fs.len() == 0 {
        lemma_leading_spaces_is(Seq::<u8>::empty(), 0);
        assert(fields_of(join_with_spaces(fs)) =~= fs);
    } else if fs.len() == 1 {
        assert(is_field(fs[0]));
        lemma_single_field(fs[0]);
        assert(seq![fs[0]] =~= fs);
    } else {
        let rest = fs.drop_first();
        assert forall|i: int| 0 <= i < rest.len() implies is_field(#[trigger] rest[i]) by {
            assert(rest[i] == fs[i + 1]);
        }
        lemma_join_then_split(rest);
        assert(is_field(fs[0]));
        lemma_single_field(fs[0]);
        lemma_space_separates(fs[0], join_with_spaces(rest));
        assert(seq![fs[0]] + rest =~= fs);
    }
}

/// Joining one more field appends a SPACE and the field.
pub proof fn lemma_join_push(fs: Seq<Seq<u8>>, f: Seq<u8>)
    requires
        fs.len() > 0,
    ensures
        join_with_spaces(fs.push(f)) == join_with_spaces(fs) + seq![SPACE] + f,
    decreases fs.len(),
{
    if fs.len() == 1 {
        assert(fs.push(f).drop_first() =~= seq![f]);
        assert(join_with_spaces(fs.push(f)) == fs[0] + seq![SPACE] + join_with_spaces(seq![f]));
    } else {
        assert(fs.push(f).drop_first() =~= fs.drop_first().push(f));
        lemma_join_push(fs.drop_first(), f);
        assert(fs.push(f)[0] == fs[0]);
        assert(fs[0] + seq![SPACE] + (join_with_spaces(fs.drop_first()) + seq![SPACE] + f) =~= (fs[0]
            + seq![SPACE] + join_with_spaces(fs.drop_first())) + seq![SPACE] + f);
    }
}

/// `n` SPACE bytes.
pub open spec fn spaces(n: nat) -> Seq<u8> {
    Seq::new(n, |i: int| SPACE)
}

/// Fields written one after another with `gap` SPACE bytes between them.
pub open spec fn join_with_gap(fs: Seq<Seq<u8>>, gap: nat) -> Seq<u8>
    decreases fs.len(),
{
    if fs.len() == 0 {
        Seq::empty()
    } else if fs.len() == 1 {
        fs[0]
    } else {
        fs[0] + spaces(gap) + join_with_gap(fs.drop_first(), gap)
    }
}

proof fn lemma_leading_run_ignored(m: nat, b: Seq<u8>)
    ensures
        fields_of(spaces(m) + b) == fields_of(b),
    decreases m,
{
    if m > 0 {
        let e = Seq::<u8>::empty();
        assert(spaces(m) + b =~= e + seq![SPACE] + (spaces((m - 1) as nat) + b));
        lemma_space_separates(e, spaces((m - 1) as nat) + b);
        lemma_leading_spaces_is(e, 0);
        assert(fields_of(e) =~= Seq::<Seq<u8>>::empty());
        lemma_leading_run_ignored((m - 1) as nat, b);
        assert(Seq::<Seq<u8>>::empty() + fields_of(b) =~= fields_of(b));
    } else {
        assert(spaces(0) + b =~= b);
    }
}

/// A run of one or more SPACE bytes separates fields like a single one.
pub proof fn lemma_space_run_separates(a: Seq<u8>, k: nat, b: Seq<u8>)
    requires
        k >= 1,
    ensures
        fields_of(a + spaces(k) + b) == fields_of(a) + fields_of(b),
{
    assert(a + spaces(k) + b =~= a + seq![SPACE] + (spaces((k - 1) as nat) + b));
    lemma_space_separates(a, spaces((k - 1) as nat) + b);
    lemma_leading_run_ignored((k - 1) as nat, b);
}

/// Well-formed fields separated by runs of `gap >= 1` SPACE bytes, with any
/// number of SPACE bytes before and after, split back into the same fields.
pub proof fn lemma_split_any_spacing(fs: Seq<Seq<u8>>, before: nat, gap: nat, after: nat)
    requires
        gap >= 1,
        forall|i: int| 0 <= i < fs.len() ==> is_field(#[trigger] fs[i]),
    ensures
        fields_of(spaces(before) + join_with_gap(fs, gap) + spaces(after)) == fs,
    decreases fs.len(),
{
    lemma_join_gap_fields(fs, gap);
    let j = join_with_gap(fs, gap);
    lemma_leading_run_ignored(before, j + spaces(after));
    assert(spaces(before) + j + spaces(after) =~= spaces(before) + (j + spaces(after)));
    if after > 0 {
        lemma_space_run_separates(j, after, Seq::<u8>::empty());
        assert(j + spaces(after) + Seq::<u8>::empty() =~= j + spaces(after));
        lemma_leading_spaces_is(Seq::<u8>::empty(), 0);
        assert(fields_of(Seq::<u8>::empty()) =~= Seq::<Seq<u8>>::empty());
        assert(fs + Seq::<Seq<u8>>::empty() =~= fs);
    } else {
        assert(j + spaces(after) =~= j);
    }
}

proof fn lemma_join_gap_fields(fs: Seq<Seq<u8>>, gap: nat)
    requires
        gap >= 1,
        forall|i: int| 0 <= i < fs.len() ==> is_field(#[trigger] fs[i]),
    ensures
        fields_of(join_with_gap(fs, gap)) == fs,
    decreases fs.len(),
{
    if fs.len() == 0 {
        lemma_leading_spaces_is(Seq::<u8>::empty(), 0);
        assert(fields_of(join_with_gap(fs, gap)) =~= fs);
    } else if fs.len() == 1 {
        assert(is_field(fs[0]));
        lemma_single_field(fs[0]);
        assert(seq![fs[0]] =~= fs);
    } else {
        let rest = fs.drop_first();
        assert forall|i: int| 0 <= i < rest.len() implies is_field(#[trigger] rest[i]) by {
            assert(rest[i] == fs[i + 1]);
        }
        lemma_join_gap_fields(rest, gap);
        assert(is_field(fs[0]));
        lemma_single_field(fs[0]);
        lemma_space_run_separates(fs[0], gap, join_with_gap(rest, gap));
        assert(seq![fs[0]] + rest =~= fs);
    }
}

/// Iterator over the fields of one record, from left to right.
pub struct FieldIter<'a> {
    record: &'a [u8],
    start: usize,
    end: usize,
}

impl<'a> View for FieldIter<'a> {
    /// The fields that are still to come.
    type V = Seq<Seq<u8>>;

    closed spec fn view(&self) -> Seq<Seq<u8>> {
        fields_of(self.record@.subrange(self.start as int, self.record@.len() as int))
    }
}

impl<'a> FieldIter<'a> {
    #[verifier::type_invariant]
    closed spec fn inv(self) -> bool {
        let r = self.record@;
        &&& self.start <= r.len()
        &&& self.end <= r.len()
        &&& forall|i: int| self.end <= i < r.len() ==> #[trigger] r[i] == SPACE
        &&& self.end > 0 ==> r[self.end - 1] != SPACE
        &&& self.start < r.len() ==> r[self.start as int] != SPACE
    }

    fn new(record: &'a [u8]) -> (iter: Self)
        ensures
            iter@ == fields_of(record@),
    {
        let start = trim_leading_spaces(record, 0);
        let end = trim_trailing_spaces(record, record.len());
        proof {
            lemma_leading_spaces_is(record@, start as int);
            assert(record@.subrange(start as int, record@.len() as int) =~= record@.skip(
                start as int,
            ));
            lemma_fields_skip_spaces(record@);
        }
        FieldIter { record, start, end }
    }

    /// Returns the next field, or `None` once every field has been returned.
    pub fn next(&mut self) -> (field: Option<&'a [u8]>)
        ensures
            old(self)@.len() == 0 ==> field is None && final(self)@ == old(self)@,
            old(self)@.len() > 0 ==> field is Some && field->0@ == old(self)@[0]
                && final(self)@ == old(self)@.drop_first(),
    {
        proof {
            use_type_invariant(&*self);
        }
        let record = self.record;
        let ghost r = record@;
        let ghost rest = r.subrange(self.start as int, r.len() as int);
        if self.start >= self.end {
            proof {
                lemma_fields_all_spaces(rest);
            }
            return None;
        }
        let field_start = self.start;
        let end = self.end;
        let mut index = self.start;
        while index < end && record[index] != SPACE
            invariant
                field_start <= index <= end,
                end <= record@.len(),
                forall|i: int| field_start <= i < index ==> #[trigger] record@[i] != SPACE,
            decreases end - index,
        {
            index += 1;
        }
        let next_start = trim_leading_spaces(record, index);
        proof {
            let n = (index - field_start) as int;
            assert forall|i: int| 0 <= i < n implies #[trigger] rest[i] != SPACE by {
                assert(rest[i] == r[field_start + i]);
            }
            if index < r.len() {
                assert(rest[n] == r[index as int]);
            }
            lemma_leading_data_is(rest, n);
            lemma_leading_spaces_is(rest, 0);
            assert(rest.skip(0) =~= rest);
            let after = rest.skip(n);
            lemma_leading_spaces_is(after, (next_start - index) as int);
            lemma_fields_skip_spaces(after);
            assert(after.skip((next_start - index) as int) =~= r.subrange(
                next_start as int,
                r.len() as int,
            ));
            assert(rest.take(n) =~= r.subrange(field_start as int, index as int));
        }
        self.start = next_start;
        Some(&record[field_start..index])
    }

    /// Number of fields that are still to come.
    pub fn count(self) -> (n: usize)
        ensures
            n == self@.len(),
    {
        let mut iter = self;
        let mut n: usize = 0;
        let _ = iter.record.len();
        proof {
            use_type_invariant(&iter);
            lemma_fields_shape(iter.record@.subrange(iter.start as int, iter.record@.len() as int));
        }
        let ghost total = self@.len();
        while iter.next().is_some()
            invariant
                n + iter@.len() == total,
                total <= usize::MAX,
            decreases iter@.len(),
        {
            n += 1;
        }
        n
    }

    /// All fields that are still to come, in order.
    pub fn collect(self) -> (fields: Vec<&'a [u8]>)
        ensures
            slice_views(fields@) == self@,
    {
        let ghost total = self@;
        let mut iter = self;
        let mut fields: Vec<&'a [u8]> = Vec::new();
        assert(slice_views(fields@) + iter@ =~= total);
        loop
            invariant
                slice_views(fields@) + iter@ == total,
                total == self@,
            decreases iter@.len(),
        {
            let ghost before = iter@;
            match iter.next() {
                Some(field) => {
                    let ghost prev = fields@;
                    fields.push(field);
                    assert(slice_views(fields@) =~= slice_views(prev).push(field@));
                    assert(slice_views(fields@) + iter@ =~= slice_views(prev) + before);
                },
                None => {
                    assert(slice_views(fields@) + iter@ =~= slice_views(fields@));

                    return fields;
                },
            }
        }
    }
}

fn trim_leading_spaces(record: &[u8], index: usize) -> (out: usize)
    requires
        index <= record@.len(),
    ensures
        index <= out <= record@.len(),
        forall|i: int| index <= i < out ==> #[trigger] record@[i] == SPACE,
        out < record@.len() ==> record@[out as int] != SPACE,
{
    let mut index = index;
    let ghost first = index;
    while index < record.len() && record[index] == SPACE
        invariant
            first <= index <= record@.len(),
            forall|i: int| first <= i < index ==> #[trigger] record@[i] == SPACE,
        decreases record@.len() - index,
    {
        index += 1;
    }
    index
}

fn trim_trailing_spaces(record: &[u8], index: usize) -> (out: usize)
    requires
        index <= record@.len(),
    ensures
        out <= index,
        forall|i: int| out <= i < index ==> #[trigger] record@[i] == SPACE,
        out > 0 ==> record@[out - 1] != SPACE,
{
    let mut index = index;
    let ghost last = index;
    while index > 0 && record[index - 1] == SPACE
        invariant
            index <= last <= record@.len(),
            forall|i: int| index <= i < last ==> #[trigger] record@[i] == SPACE,
        decreases index,
    {
        index -= 1;
    }
    index
}

/// Splits a record into its fields.
pub fn split_fields(record: &[u8]) -> (iter: FieldIter<'_>)
    ensures
        iter@ == fields_of(record@),
{
    FieldIter::new(record)
}

} // verus!
