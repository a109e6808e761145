//! Character-level text operations used by the log format: splitting a string
//! at a separator, trimming whitespace, and dropping a trailing carriage
//! return. Each executable operation is specified against a recursive model
//! over `Seq<char>`.

use vstd::prelude::*;
use vstd::string::StrSliceExecFns;

verus! {

/// How many occurrences of `c` appear in `s`.
pub open spec fn count_char(s: Seq<char>, c: char) -> nat
    decreases s.len(),
{
    if s.len() == 0 {
        0
    } else {
        (if s[0] == c {
            1nat
        } else {
            0nat
        }) + count_char(s.drop_first(), c)
    }
}

/// The pieces of `s` delimited by `sep`, in order. Splitting always yields at
/// least one piece; an empty string yields one empty piece, and a separator at
/// either end yields an empty piece there.
pub open spec fn split_chars(s: Seq<char>, sep: char) -> Seq<Seq<char>>
    decreases s.len(),
{
    if s.len() == 0 {
        seq![Seq::<char>::empty()]
    } else if s[0] == sep {
        seq![Seq::<char>::empty()] + split_chars(s.drop_first(), sep)
    } else {
        let rest = split_chars(s.drop_first(), sep);
        seq![seq![s[0]] + rest[0]] + rest.skip(1)
    }
}

/// The characters that `str::trim` removes: Unicode `White_Space`.
pub open spec fn is_space_char(c: char) -> bool {
    c == ' ' || c == '\t' || c == '\n' || c == '\r' || c == '\u{b}' || c == '\u{c}'
        || c == '\u{85}' || c == '\u{a0}' || c == '\u{1680}'
        || ('\u{2000}' <= c && c <= '\u{200a}') || c == '\u{2028}' || c == '\u{2029}'
        || c == '\u{202f}' || c == '\u{205f}' || c == '\u{3000}'
}

/// `s` without its leading whitespace.
pub open spec fn trim_start_chars(s: Seq<char>) -> Seq<char>
    decreases s.len(),
{
    if s.len() > 0 && is_space_char(s[0]) {
        trim_start_chars(s.drop_first())
    } else {
        s
    }
}

/// `s` without its trailing whitespace.
pub open spec fn trim_end_chars(s: Seq<char>) -> Seq<char>
    decreases s.len(),
{
    if s.len() > 0 && is_space_char(s.last()) {
        trim_end_chars(s.drop_last())
    } else {
        s
    }
}

/// `s` without leading or trailing whitespace, as `str::trim` returns it.
pub open spec fn trim_chars(s: Seq<char>) -> Seq<char> {
    trim_end_chars(trim_start_chars(s))
}

/// `s` without a single trailing carriage return, if one is present: what
/// reading the line from a file with Windows line endings would yield.
pub open spec fn strip_cr(s: Seq<char>) -> Seq<char> {
    if s.len() > 0 && s.last() == '\r' {
        s.drop_last()
    } else {
        s
    }
}

pub proof fn lemma_split_at_least_one(s: Seq<char>, sep: char)
    ensures
        split_chars(s, sep).len() == count_char(s, sep) + 1,
    decreases s.len(),
{
    if s.len() == 0 {
    } else {
        lemma_split_at_least_one(s.drop_first(), sep);
    }
}

/// A string without the separator splits into a single piece: itself.
pub proof fn lemma_split_no_sep(s: Seq<char>, sep: char)
    requires
        count_char(s, sep) == 0,
    ensures
        split_chars(s, sep) == seq![s],
    decreases s.len(),
{
    if s.len() == 0 {
        assert(split_chars(s, sep) =~~= seq![s]);
    } else {
        assert(s[0] != sep);
        lemma_split_no_sep(s.drop_first(), sep);
        assert(seq![s[0]] + s.drop_first() =~= s);
        assert(split_chars(s, sep) =~~= seq![s]);
    }
}

/// Splitting a string that starts with a separator-free piece `a`, then a
/// separator, then `b`: the first piece is `a` and the rest splits `b`.
pub proof fn lemma_split_sep_concat(a: Seq<char>, b: Seq<char>, sep: char)
    requires
        count_char(a, sep) == 0,
    ensures
        split_chars(a + seq![sep] + b, sep) == seq![a] + split_chars(b, sep),
    decreases a.len(),
{
    if a.len() == 0 {
        assert(a + seq![sep] + b =~= seq![sep] + b);
        assert((seq![sep] + b)[0] == sep);
        assert((seq![sep] + b).drop_first() =~= b);
        assert(split_chars(a + seq![sep] + b, sep) =~~= seq![a] + split_chars(b, sep));
    } else {
        let s = a + seq![sep] + b;
        assert(s[0] == a[0]);
        assert(a[0] != sep);
        assert(s.drop_first() =~= a.drop_first() + seq![sep] + b);
        lemma_split_sep_concat(a.drop_first(), b, sep);
        let rest = split_chars(s.drop_first(), sep);
        assert(rest == seq![a.drop_first()] + split_chars(b, sep));
        assert(rest[0] == a.drop_first());
        assert(seq![s[0]] + rest[0] =~= a);
        assert(rest.skip(1) =~= split_chars(b, sep));
        assert(split_chars(s, sep) =~= seq![a] + split_chars(b, sep));
    }
}

/// Splitting a concatenation: the boundary piece joins the last piece of `a`
/// with the first piece of `b`.
pub proof fn lemma_split_concat(a: Seq<char>, b: Seq<char>, sep: char)
    ensures
        split_chars(a + b, sep) == split_chars(a, sep).drop_last() + seq![
            split_chars(a, sep).last() + split_chars(b, sep)[0],
        ] + split_chars(b, sep).skip(1),
    decreases a.len(),
{
    lemma_split_at_least_one(a, sep);
    lemma_split_at_least_one(b, sep);
    if a.len() == 0 {
        assert(a + b =~= b);
        assert(split_chars(a, sep) == seq![Seq::<char>::empty()]);
        assert(split_chars(a, sep).drop_last() =~= Seq::<Seq<char>>::empty());
        assert(split_chars(a, sep).last() + split_chars(b, sep)[0] =~= split_chars(b, sep)[0]);
        assert(split_chars(a, sep).drop_last() + seq![
            split_chars(a, sep).last() + split_chars(b, sep)[0],
        ] + split_chars(b, sep).skip(1) =~= split_chars(b, sep));
    } else {
        let s = a + b;
        assert(s[0] == a[0]);
        assert(s.drop_first() =~= a.drop_first() + b);
        lemma_split_concat(a.drop_first(), b, sep);
        let ra = split_chars(a.drop_first(), sep);
        let rb = split_chars(b, sep);
        let rs = split_chars(s.drop_first(), sep);
        lemma_split_at_least_one(a.drop_first(), sep);
        assert(rs == ra.drop_last() + seq![ra.last() + rb[0]] + rb.skip(1));
        if a[0] == sep {
            assert(split_chars(s, sep) == seq![Seq::<char>::empty()] + rs);
            assert(split_chars(a, sep) == seq![Seq::<char>::empty()] + ra);
            assert(split_chars(a, sep).drop_last() =~= seq![Seq::<char>::empty()]
                + ra.drop_last());
            assert(split_chars(a, sep).last() == ra.last());
            assert(split_chars(s, sep) =~= split_chars(a, sep).drop_last() + seq![
                split_chars(a, sep).last() + rb[0],
            ] + rb.skip(1));
        } else {
            assert(split_chars(s, sep) == seq![seq![s[0]] + rs[0]] + rs.skip(1));
            assert(split_chars(a, sep) == seq![seq![a[0]] + ra[0]] + ra.skip(1));
            if ra.len() == 1 {
                assert(ra.drop_last() =~= Seq::<Seq<char>>::empty());
                assert(rs[0] == ra.last() + rb[0]);
                assert(rs.skip(1) =~= rb.skip(1));
                assert(ra[0] == ra.last());
                assert(split_chars(a, sep).drop_last() =~= Seq::<Seq<char>>::empty());
                assert(split_chars(a, sep).last() == seq![a[0]] + ra[0]);
                assert(seq![s[0]] + rs[0] =~= (seq![a[0]] + ra[0]) + rb[0]);
                assert(split_chars(s, sep) =~= split_chars(a, sep).drop_last() + seq![
                    split_chars(a, sep).last() + rb[0],
                ] + rb.skip(1));
            } else {
                assert(rs[0] == ra.drop_last()[0]);
                assert(ra.drop_last()[0] == ra[0]);
                assert(seq![s[0]] + rs[0] =~= seq![a[0]] + ra[0]);
                assert(split_chars(a, sep).drop_last() =~= seq![seq![a[0]] + ra[0]]
                    + ra.skip(1).drop_last());
                assert(split_chars(a, sep).last() == ra.last());
                assert(rs.skip(1) =~= ra.skip(1).drop_last() + seq![ra.last() + rb[0]] + rb.skip(
                    1,
                ));
                assert(split_chars(s, sep) =~= split_chars(a, sep).drop_last() + seq![
                    split_chars(a, sep).last() + rb[0],
                ] + rb.skip(1));
            }
        }
    }
}

/// Appending one character changes the count by whether it is the separator.
pub proof fn lemma_count_char_push(s: Seq<char>, x: char, c: char)
    ensures
        count_char(s.push(x), c) == count_char(s, c) + (if x == c {
            1nat
        } else {
            0nat
        }),
    decreases s.len(),
{
    if s.len() == 0 {
        assert(s.push(x)[0] == x);
        assert(s.push(x).drop_first() =~= Seq::<char>::empty());
        assert(count_char(s.push(x).drop_first(), c) == 0);
    } else {
        assert(s.push(x)[0] == s[0]);
        assert(s.push(x).drop_first() =~= s.drop_first().push(x));
        lemma_count_char_push(s.drop_first(), x, c);
        assert(count_char(s.push(x), c) == (if s[0] == c {
            1nat
        } else {
            0nat
        }) + count_char(s.drop_first().push(x), c));
    }
}

/// Whether `c` is one of the characters `str::trim` removes.
pub fn is_space(c: char) -> (r: bool)
    ensures
        r == is_space_char(c),
{
    c == ' ' || c == '\t' || c == '\n' || c == '\r' || c == '\u{b}' || c == '\u{c}'
        || c == '\u{85}' || c == '\u{a0}' || c == '\u{1680}'
        || ('\u{2000}' <= c && c <= '\u{200a}') || c == '\u{2028}' || c == '\u{2029}'
        || c == '\u{202f}' || c == '\u{205f}' || c == '\u{3000}'
}

/// Whether two string slices hold the same characters.
pub fn str_eq(a: &str, b: &str) -> (r: bool)
    ensures
        r == (a@ == b@),
{
    let alen = a.unicode_len();
    let blen = b.unicode_len();
    if alen != blen {
        return false;
    }
    let mut i: usize = 0;
    while i < alen
        invariant
            alen == a@.len(),
            alen == b@.len(),
            0 <= i <= alen,
            forall|j: int| 0 <= j < i ==> a@[j] == b@[j],
        decreases alen - i,
    {
        if a.get_char(i) != b.get_char(i) {
            return false;
        }
        i += 1;
    }
    proof {
        assert(a@ =~= b@);
    }
    true
}

/// The slice without a single trailing carriage return, if one is present.
pub fn strip_cr_str<'a>(s: &'a str) -> (r: &'a str)
    ensures
        r@ == strip_cr(s@),
{
    let len = s.unicode_len();
    if len > 0 && s.get_char(len - 1) == '\r' {
        s.substring_char(0, len - 1)
    } else {
        proof {
            assert(s@.subrange(0, s@.len() as int) =~= s@);
        }
        s.substring_char(0, len)
    }
}

/// The slice without leading or trailing whitespace, as `str::trim` returns it.
pub fn trim_str<'a>(s: &'a str) -> (r: &'a str)
    ensures
        r@ == trim_chars(s@),
{
    let len = s.unicode_len();
    proof {
        assert(s@.skip(0) =~= s@);
    }
    let mut start: usize = 0;
    while start < len && is_space(s.get_char(start))
        invariant
            len == s@.len(),
            0 <= start <= len,
            trim_start_chars(s@) == trim_start_chars(s@.skip(start as int)),
        decreases len - start,
    {
        proof {
            assert(s@.skip(start as int)[0] == s@[start as int]);
            assert(s@.skip(start as int).drop_first() =~= s@.skip(start as int + 1));
        }
        start += 1;
    }
    proof {
        if start < len {
            assert(s@.skip(start as int)[0] == s@[start as int]);
        }
        assert(trim_start_chars(s@.skip(start as int)) == s@.skip(start as int));
    }
    let mut end: usize = len;
    while end > start && is_space(s.get_char(end - 1))
        invariant
            len == s@.len(),
            0 <= start <= end <= len,
            trim_start_chars(s@) == s@.skip(start as int),
            trim_end_chars(s@.subrange(start as int, len as int)) == trim_end_chars(
                s@.subrange(start as int, end as int),
            ),
        decreases end,
    {
        proof {
            let t = s@.subrange(start as int, end as int);
            assert(t.last() == s@[end - 1]);
            assert(t.drop_last() =~= s@.subrange(start as int, end as int - 1));
        }
        end -= 1;
    }
    proof {
        let t = s@.subrange(start as int, end as int);
        if end > start {
            assert(t.last() == s@[end - 1]);
        }
        assert(trim_end_chars(t) == t);
        assert(s@.skip(start as int) =~= s@.subrange(start as int, len as int));
    }
    s.substring_char(start, end)
}

/// The pieces of `s` delimited by `sep`, in order, as `split_chars` describes
/// them.
pub fn split_str<'a>(s: &'a str, sep: char) -> (r: Vec<&'a str>)
    ensures
        r@.len() == split_chars(s@, sep).len(),
        forall|i: int| 0 <= i < r@.len() ==> r@[i]@ == split_chars(s@, sep)[i],
{
    let len = s.unicode_len();
    proof {
        assert(s@.skip(0) =~= s@);
        assert(s@.subrange(0, 0) =~= Seq::<char>::empty());
        assert(split_chars(s@, sep).skip(0) =~= split_chars(s@, sep));
    }
    let mut fields: Vec<&'a str> = Vec::new();
    let mut start: usize = 0;
    let mut i: usize = 0;
    while i < len
        invariant
            len == s@.len(),
            0 <= start <= i <= len,
            count_char(s@.subrange(start as int, i as int), sep) == 0,
            split_chars(s@, sep).len() == fields@.len() + split_chars(
                s@.skip(start as int),
                sep,
            ).len(),
            split_chars(s@.skip(start as int), sep) == split_chars(s@, sep).skip(
                fields@.len() as int,
            ),
            forall|j: int| 0 <= j < fields@.len() ==> fields@[j]@ == split_chars(s@, sep)[j],
        decreases len - i,
    {
        let c = s.get_char(i);
        if c == sep {
            let piece = s.substring_char(start, i);
            proof {
                let pre = s@.subrange(start as int, i as int);
                assert(s@.skip(start as int) =~= pre + seq![sep] + s@.skip(i as int + 1));
                lemma_split_sep_concat(pre, s@.skip(i as int + 1), sep);
                lemma_split_at_least_one(s@.skip(i as int + 1), sep);
                let k = fields@.len() as int;
                let whole = split_chars(s@, sep);
                assert(whole.skip(k) == seq![pre] + split_chars(s@.skip(i as int + 1), sep));
                assert(whole.skip(k)[0] == pre);
                assert(whole[k] == pre);
                assert(whole.skip(k).skip(1) =~= whole.skip(k + 1));
                assert(whole.skip(k).skip(1) =~= split_chars(s@.skip(i as int + 1), sep));
                assert(s@.subrange(i as int + 1, i as int + 1) =~= Seq::<char>::empty());
            }
            fields.push(piece);
            start = i + 1;
        } else {
            proof {
                assert(s@.subrange(start as int, i as int + 1) =~= s@.subrange(
                    start as int,
                    i as int,
                ).push(s@[i as int]));
                lemma_count_char_push(s@.subrange(start as int, i as int), s@[i as int], sep);
            }
        }
        i += 1;
    }
    let last = s.substring_char(start, len);
    proof {
        assert(s@.subrange(start as int, len as int) =~= s@.skip(start as int));
        lemma_split_no_sep(s@.skip(start as int), sep);
        let k = fields@.len() as int;
        let whole = split_chars(s@, sep);
        assert(whole.skip(k) == seq![s@.skip(start as int)]);
        assert(whole.skip(k)[0] == s@.skip(start as int));
        assert(whole[k] == s@.skip(start as int));
        assert(whole.len() == k + 1);
    }
    fields.push(last);
    fields
}

} // verus!
