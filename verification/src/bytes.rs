//! Byte-level helpers shared by the indexer, the tokenizer and the
//! annotators: scanning for a delimiter, splitting a record into fields,
//! case folding and decimal parsing.

use vstd::prelude::*;

verus! {

/// Index of the first occurrence of `d` in `s` at or after `from`,
/// or `s.len()` if there is none.
pub open spec fn find_from(s: Seq<u8>, from: int, d: u8) -> int
    decreases s.len() - from when 0 <= from <= s.len()
{
    if from >= s.len() {
        s.len() as int
    } else if s[from] == d {
        from
    } else {
        find_from(s, from + 1, d)
    }
}

pub proof fn lemma_find_from(s: Seq<u8>, from: int, d: u8)
    requires
        0 <= from <= s.len(),
    ensures
        from <= find_from(s, from, d) <= s.len(),
        find_from(s, from, d) < s.len() ==> s[find_from(s, from, d)] == d,
        forall|j: int| from <= j < find_from(s, from, d) ==> s[j] != d,
    decreases s.len() - from,
{
    if from < s.len() && s[from] != d {
        lemma_find_from(s, from + 1, d);
    }
}

/// Finding a delimiter in a suffix mirrors finding it in the whole sequence.
pub proof fn lemma_find_from_skip(s: Seq<u8>, from: int, d: u8)
    requires
        0 <= from <= s.len(),
    ensures
        find_from(s, from, d) == from + find_from(s.skip(from), 0, d),
    decreases s.len() - from,
{
    let t = s.skip(from);
    if from >= s.len() {
        assert(t.len() == 0);
    } else if s[from] == d {
        assert(t[0] == d);
    } else {
        assert(t[0] != d);
        lemma_find_from_skip(s, from + 1, d);
        lemma_find_from_skip(t, 1, d);
        assert(s.skip(from + 1) =~= t.skip(1));
    }
}

/// First index of `d` at or after `from`, or `data.len()` if absent.
pub fn find_byte(data: &[u8], from: usize, d: u8) -> (r: usize)
    requires
        from <= data.len(),
    ensures
        r == find_from(data@, from as int, d),
{
    let mut i: usize = from;
    while i < data.len()
        invariant
            from <= i <= data.len(),
            find_from(data@, from as int, d) == find_from(data@, i as int, d),
        decreases data.len() - i,
    {
        if data[i] == d {
            return i;
        }
        i = i + 1;
    }
    i
}

/// Byte-wise equality of two slices.
pub fn bytes_eq(a: &[u8], b: &[u8]) -> (r: bool)
    ensures
        r == (a@ == b@),
{
    if a.len() != b.len() {
        return false;
    }
    let mut i: usize = 0;
    while i < a.len()
        invariant
            i <= a.len(),
            a@.len() == b@.len(),
            forall|j: int| 0 <= j < i ==> a@[j] == b@[j],
        decreases a.len() - i,
    {
        if a[i] != b[i] {
            return false;
        }
        i = i + 1;
    }
    proof {
        assert(a@ =~= b@);
    }
    true
}

/// The fields of a record: `s` split at every occurrence of `d`.
/// A sequence without `d` is a single field; the empty sequence is one
/// empty field.
pub open spec fn split_by(s: Seq<u8>, d: u8) -> Seq<Seq<u8>>
    decreases s.len(),
{
    let e = find_from(s, 0, d);
    if 0 <= e < s.len() {
        seq![s.take(e)] + split_by(s.skip(e + 1), d)
    } else {
        seq![s]
    }
}

/// Split `line` at every occurrence of `d`.
pub fn split_fields(line: &[u8], d: u8) -> (r: Vec<Vec<u8>>)
    ensures
        r.deep_view() == split_by(line@, d),
{
    let mut fields: Vec<Vec<u8>> = Vec::new();
    let mut p: usize = 0;
    proof {
        assert(line@.skip(0) =~= line@);
        assert(fields.deep_view() + split_by(line@, d) =~= split_by(line@, d));
    }
    loop
        invariant
            p <= line.len(),
            fields.deep_view() + split_by(line@.skip(p as int), d) =~~= split_by(line@, d),
        decreases line.len() - p,
    {
        let e = find_byte(line, p, d);
        proof {
            lemma_find_from(line@, p as int, d);
            lemma_find_from_skip(line@, p as int, d);
        }
        let ghost t = line@.skip(p as int);
        let ghost old_fields = fields.deep_view();
        if e < line.len() {
            let f = vstd::slice::slice_to_vec(vstd::slice::slice_subrange(line, p, e));
            fields.push(f);
            proof {
                assert(t.take(e - p) =~= line@.subrange(p as int, e as int));
                assert(t.skip(e - p + 1) =~= line@.skip(e as int + 1));
                assert(split_by(t, d) =~= seq![t.take(e - p)] + split_by(t.skip(e - p + 1), d));
                assert(fields.deep_view() =~~= old_fields.push(f@));
                assert(fields.deep_view() + split_by(line@.skip(e as int + 1), d) =~~= split_by(
                    line@,
                    d,
                ));
            }
            p = e + 1;
        } else {
            let f = vstd::slice::slice_to_vec(vstd::slice::slice_subrange(line, p, line.len()));
            fields.push(f);
            proof {
                assert(f@ =~= t);
                assert(split_by(t, d) =~= seq![t]);
                assert(fields.deep_view() =~~= old_fields.push(f@));
                assert(fields.deep_view() =~~= split_by(line@, d));
            }
            return fields;
        }
    }
}

/// Append all bytes of `src` to `dst`.
pub fn push_all(dst: &mut Vec<u8>, src: &[u8])
    ensures
        final(dst)@ == old(dst)@ + src@,
{
    let mut i: usize = 0;
    while i < src.len()
        invariant
            i <= src.len(),
            dst@ =~= old(dst)@ + src@.take(i as int),
        decreases src.len() - i,
    {
        dst.push(src[i]);
        proof {
            assert(dst@ =~= old(dst)@ + src@.take(i as int + 1));
        }
        i = i + 1;
    }
    proof {
        assert(dst@ =~= old(dst)@ + src@);
    }
}

/// ASCII upper case of one byte.
pub open spec fn upper_byte(b: u8) -> u8 {
    if 97 <= b <= 122 {
        (b - 32) as u8
    } else {
        b
    }
}

/// ASCII upper case of a byte sequence; bytes outside `a..=z` are kept.
pub open spec fn upper_seq(s: Seq<u8>) -> Seq<u8> {
    s.map_values(|b: u8| upper_byte(b))
}

/// ASCII upper case of a name.
pub fn to_upper(name: &[u8]) -> (r: Vec<u8>)
    ensures
        r@ == upper_seq(name@),
{
    let mut out: Vec<u8> = Vec::new();
    let mut i: usize = 0;
    while i < name.len()
        invariant
            i <= name.len(),
            out@ =~= upper_seq(name@.take(i as int)),
        decreases name.len() - i,
    {
        let b = name[i];
        if 97 <= b && b <= 122 {
            out.push(b - 32);
        } else {
            out.push(b);
        }
        proof {
            assert(out@ =~= upper_seq(name@.take(i as int + 1)));
        }
        i = i + 1;
    }
    proof {
        assert(name@.take(name@.len() as int) =~= name@);
    }
    out
}

/// A record with a trailing carriage return removed.
pub open spec fn chop_cr(s: Seq<u8>) -> Seq<u8> {
    if s.len() > 0 && s.last() == 13 {
        s.drop_last()
    } else {
        s
    }
}

/// Strip one trailing carriage return from a record.
pub fn chop_cr_slice(content: &[u8]) -> (r: &[u8])
    ensures
        r@ == chop_cr(content@),
{
    let n = content.len();
    if n > 0 && content[n - 1] == 13 {
        let r = vstd::slice::slice_subrange(content, 0, n - 1);
        proof {
            assert(r@ =~= content@.drop_last());
        }
        r
    } else {
        content
    }
}

/// ASCII white space, as the usual trim understands it.
pub open spec fn is_space(b: u8) -> bool {
    b == 32 || (9 <= b <= 13)
}

fn is_space_byte(b: u8) -> (r: bool)
    ensures
        r == is_space(b),
{
    b == 32 || (9 <= b && b <= 13)
}

pub open spec fn trim_start_spec(s: Seq<u8>) -> Seq<u8>
    decreases s.len(),
{
    if s.len() > 0 && is_space(s[0]) {
        trim_start_spec(s.skip(1))
    } else {
        s
    }
}

pub open spec fn trim_end_spec(s: Seq<u8>) -> Seq<u8>
    decreases s.len(),
{
    if s.len() > 0 && is_space(s.last()) {
        trim_end_spec(s.drop_last())
    } else {
        s
    }
}

/// `s` without leading and trailing ASCII white space.
pub open spec fn trim_spec(s: Seq<u8>) -> Seq<u8> {
    trim_end_spec(trim_start_spec(s))
}

/// Drop leading and trailing ASCII white space from a field.
pub fn trim_ascii(field: &[u8]) -> (r: Vec<u8>)
    ensures
        r@ == trim_spec(field@),
{
    let mut a: usize = 0;
    proof {
        assert(field@.skip(0) =~= field@);
    }
    while a < field.len() && is_space_byte(field[a])
        invariant
            a <= field.len(),
            trim_start_spec(field@) == trim_start_spec(field@.skip(a as int)),
        decreases field.len() - a,
    {
        proof {
            assert(field@.skip(a as int).skip(1) =~= field@.skip(a as int + 1));
        }
        a = a + 1;
    }
    let mut e: usize = field.len();
    proof {
        assert(field@.subrange(a as int, e as int) =~= field@.skip(a as int));
    }
    while e > a && is_space_byte(field[e - 1])
        invariant
            a <= e <= field.len(),
            trim_end_spec(field@.skip(a as int)) == trim_end_spec(
                field@.subrange(a as int, e as int),
            ),
        decreases e,
    {
        proof {
            assert(field@.subrange(a as int, e as int).drop_last() =~= field@.subrange(
                a as int,
                e as int - 1,
            ));
        }
        e = e - 1;
    }
    vstd::slice::slice_to_vec(vstd::slice::slice_subrange(field, a, e))
}

/// Drop trailing ASCII white space from a record.
pub fn trim_end_ascii(field: &[u8]) -> (r: Vec<u8>)
    ensures
        r@ == trim_end_spec(field@),
{
    let mut e: usize = field.len();
    proof {
        assert(field@.subrange(0, e as int) =~= field@);
    }
    while e > 0 && is_space_byte(field[e - 1])
        invariant
            e <= field.len(),
            trim_end_spec(field@) == trim_end_spec(field@.subrange(0, e as int)),
        decreases e,
    {
        proof {
            assert(field@.subrange(0, e as int).drop_last() =~= field@.subrange(0, e as int - 1));
        }
        e = e - 1;
    }
    vstd::slice::slice_to_vec(vstd::slice::slice_subrange(field, 0, e))
}

/// A decimal digit.
pub open spec fn is_digit(b: u8) -> bool {
    48 <= b <= 57
}

pub open spec fn all_digits(s: Seq<u8>) -> bool {
    forall|i: int| 0 <= i < s.len() ==> is_digit(s[i])
}

/// Value of a sequence of decimal digits.
pub open spec fn dec_value(s: Seq<u8>) -> int
    decreases s.len(),
{
    if s.len() == 0 {
        0
    } else {
        dec_value(s.drop_last()) * 10 + (s.last() - 48)
    }
}

pub proof fn lemma_dec_value_bounds(s: Seq<u8>, j: int)
    requires
        all_digits(s),
        0 <= j <= s.len(),
    ensures
        0 <= dec_value(s.take(j)) <= dec_value(s),
    decreases s.len(),
{
    if s.len() == 0 {
        assert(s.take(j) =~= s);
    } else if j == s.len() {
        assert(s.take(j) =~= s);
        lemma_dec_value_bounds(s.drop_last(), s.len() - 1);
        assert(s.drop_last().take(s.len() - 1) =~= s.drop_last());
    } else {
        lemma_dec_value_bounds(s.drop_last(), j);
        assert(s.drop_last().take(j) =~= s.take(j));
    }
}

/// Parse an unsigned decimal number. `None` on an empty field, a non-digit
/// byte, or a value that does not fit.
pub fn parse_u128(field: &[u8]) -> (r: Option<u128>)
    ensures
        match r {
            Some(v) => field@.len() > 0 && all_digits(field@) && v == dec_value(field@),
            None => field@.len() == 0 || !all_digits(field@) || dec_value(field@) > u128::MAX,
        },
{
    if field.len() == 0 {
        return None;
    }
    let mut acc: u128 = 0;
    let mut i: usize = 0;
    while i < field.len()
        invariant
            i <= field.len(),
            all_digits(field@.take(i as int)),
            acc == dec_value(field@.take(i as int)),
        decreases field.len() - i,
    {
        let b = field[i];
        if b < 48 || b > 57 {
            return None;
        }
        let d = (b - 48) as u128;
        proof {
            assert(field@.take(i as int + 1).drop_last() =~= field@.take(i as int));
        }
        if acc > (u128::MAX - d) / 10 {
            proof {
                assert(all_digits(field@.take(i as int + 1)));
                assert(dec_value(field@.take(i as int + 1)) > u128::MAX);
                if all_digits(field@) {
                    lemma_dec_value_bounds(field@, i as int + 1);
                }
            }
            return None;
        }
        acc = acc * 10 + d;
        i = i + 1;
    }
    proof {
        assert(field@.take(field@.len() as int) =~= field@);
    }
    Some(acc)
}

} // verus!
