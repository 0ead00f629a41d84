//! Zero-copy tokenization helpers.
//!
//! Every function here borrows its input and returns either an index or a
//! sub-slice that borrows the same input: no allocation, no copying.

use vstd::prelude::*;

verus! {

/// `u8::is_ascii_whitespace`: space, tab, line feed, form feed, carriage return.
pub open spec fn is_ascii_ws(b: u8) -> bool {
    b == 0x20u8 || b == 0x09u8 || b == 0x0Au8 || b == 0x0Cu8 || b == 0x0Du8
}

/// No byte of `s` equals `b`.
pub open spec fn no_byte(s: Seq<u8>, b: u8) -> bool {
    forall|j: int| 0 <= j < s.len() ==> s[j] != b
}

/// `i` is the position of the first occurrence of `b` in `s`.
pub open spec fn is_first(s: Seq<u8>, b: u8, i: int) -> bool {
    &&& 0 <= i < s.len()
    &&& s[i] == b
    &&& no_byte(s.take(i), b)
}

/// The position of the first occurrence of `b` in `s`, if `b` occurs.
pub open spec fn first_of(s: Seq<u8>, b: u8) -> Option<int> {
    if exists|i: int| is_first(s, b, i) {
        Some(choose|i: int| is_first(s, b, i))
    } else {
        None
    }
}

/// Number of ASCII-whitespace bytes at the front of `s`.
pub open spec fn leading_ws(s: Seq<u8>) -> nat
    decreases s.len(),
{
    if s.len() == 0 {
        0
    } else if is_ascii_ws(s[0]) {
        1 + leading_ws(s.drop_first())
    } else {
        0
    }
}

/// Number of ASCII-whitespace bytes at the back of `s`.
pub open spec fn trailing_ws(s: Seq<u8>) -> nat
    decreases s.len(),
{
    if s.len() == 0 {
        0
    } else if is_ascii_ws(s.last()) {
        1 + trailing_ws(s.drop_last())
    } else {
        0
    }
}

/// `s` without its leading and trailing ASCII whitespace.
pub open spec fn trim_spec(s: Seq<u8>) -> Seq<u8> {
    if leading_ws(s) == s.len() {
        Seq::empty()
    } else {
        s.subrange(leading_ws(s) as int, s.len() - trailing_ws(s))
    }
}

/// The fields of `s` separated by `d`: `s` itself when `d` does not occur, else
/// the part before the first `d` followed by the fields of the part after it.
pub open spec fn split_on(s: Seq<u8>, d: u8) -> Seq<Seq<u8>>
    decreases s.len(),
{
    match first_of(s, d) {
        Some(i) => {
            proof {
                lemma_first_of(s, d);
            }
            seq![s.take(i)] + split_on(s.skip(i + 1), d)
        },
        None => seq![s],
    }
}

/// The fields joined back together, `d` between each two.
pub open spec fn join_on(fields: Seq<Seq<u8>>, d: u8) -> Seq<u8>
    decreases fields.len(),
{
    if fields.len() <= 1 {
        if fields.len() == 0 {
            Seq::empty()
        } else {
            fields[0]
        }
    } else {
        fields[0] + seq![d] + join_on(fields.drop_first(), d)
    }
}

/// Splitting loses nothing: the fields joined back with the delimiter give
/// the record, there is always at least one field, and no field holds the
/// delimiter.
pub proof fn lemma_split_join(s: Seq<u8>, d: u8)
    ensures
        join_on(split_on(s, d), d) == s,
        split_on(s, d).len() >= 1,
        forall|k: int| 0 <= k < split_on(s, d).len() ==> no_byte(#[trigger] split_on(s, d)[k], d),
    decreases s.len(),
{
    lemma_first_of(s, d);
    match first_of(s, d) {
        None => {},
        Some(i) => {
            let rest = s.skip(i + 1);
            lemma_split_join(rest, d);
            let fields = split_on(s, d);
            assert(fields.drop_first() =~= split_on(rest, d));
            assert(s.take(i) + seq![d] + rest =~= s);
            assert forall|k: int| 0 <= k < fields.len() implies no_byte(
                #[trigger] fields[k],
                d,
            ) by {
                if k > 0 {
                    assert(fields[k] == split_on(rest, d)[k - 1]);
                }
            }
        },
    }
}

proof fn lemma_leading_ws_push(s: Seq<u8>, x: u8)
    ensures
        leading_ws(s) < s.len() ==> leading_ws(s.push(x)) == leading_ws(s),
        leading_ws(s) == s.len() && is_ascii_ws(x) ==> leading_ws(s.push(x)) == s.len() + 1,
        leading_ws(s) <= s.len(),
    decreases s.len(),
{
    assert(s.push(x)[s.len() as int] == x);
    if s.len() > 0 {
        assert(s.push(x)[0] == s[0]);
        assert(s.push(x).drop_first() =~= s.drop_first().push(x));
        lemma_leading_ws_push(s.drop_first(), x);
        if leading_ws(s) == s.len() && is_ascii_ws(x) {
            assert(is_ascii_ws(s[0]));
            assert(leading_ws(s.push(x)) == 1 + leading_ws(s.push(x).drop_first()));
        }
    } else {
        assert(s.push(x).drop_first() =~= Seq::<u8>::empty());
        assert(leading_ws(s.push(x).drop_first()) == 0);
    }
}

proof fn lemma_leading_ws_stops(s: Seq<u8>)
    ensures
        leading_ws(s) <= s.len(),
        leading_ws(s) < s.len() ==> !is_ascii_ws(s[leading_ws(s) as int]),
    decreases s.len(),
{
    if s.len() > 0 && is_ascii_ws(s[0]) {
        let t = s.drop_first();
        lemma_leading_ws_stops(t);
        if leading_ws(t) < t.len() {
            assert(t[leading_ws(t) as int] == s[leading_ws(s) as int]);
        }
    }
}

proof fn lemma_trailing_ws_all(s: Seq<u8>)
    ensures
        trailing_ws(s) <= s.len(),
        forall|j: int| s.len() - trailing_ws(s) <= j < s.len() ==> is_ascii_ws(#[trigger] s[j]),
    decreases s.len(),
{
    if s.len() > 0 && is_ascii_ws(s.last()) {
        let t = s.drop_last();
        lemma_trailing_ws_all(t);
        assert forall|j: int| s.len() - trailing_ws(s) <= j < s.len() implies is_ascii_ws(
            #[trigger] s[j],
        ) by {
            if j < s.len() - 1 {
                assert(s[j] == t[j]);
            }
        }
    }
}

/// A carriage return at the end changes nothing once trimmed: CRLF line
/// endings are handled like LF ones.
pub proof fn lemma_trim_ignores_cr(s: Seq<u8>)
    ensures
        trim_spec(s.push(0x0Du8)) == trim_spec(s),
{
    let t = s.push(0x0Du8);
    lemma_leading_ws_push(s, 0x0Du8);
    lemma_leading_ws_stops(s);
    lemma_trailing_ws_all(s);
    assert(t.drop_last() =~= s);
    assert(t.last() == 0x0Du8);
    if leading_ws(s) < s.len() {
        assert(leading_ws(s) < s.len() - trailing_ws(s));
        assert(t.subrange(leading_ws(s) as int, t.len() - trailing_ws(t)) =~= s.subrange(
            leading_ws(s) as int,
            s.len() - trailing_ws(s),
        ));
    }
}

proof fn lemma_trailing_ws_stops(s: Seq<u8>)
    ensures
        trailing_ws(s) <= s.len(),
        trailing_ws(s) < s.len() ==> !is_ascii_ws(s[s.len() - trailing_ws(s) - 1]),
    decreases s.len(),
{
    if s.len() > 0 && is_ascii_ws(s.last()) {
        let t = s.drop_last();
        lemma_trailing_ws_stops(t);
        if trailing_ws(t) < t.len() {
            assert(t[t.len() - trailing_ws(t) - 1] == s[s.len() - trailing_ws(s) - 1]);
        }
    }
}

/// Trimming twice gives what trimming once gives.
pub proof fn lemma_trim_idempotent(s: Seq<u8>)
    ensures
        trim_spec(trim_spec(s)) == trim_spec(s),
{
    lemma_leading_ws_stops(s);
    lemma_trailing_ws_all(s);
    lemma_trailing_ws_stops(s);
    let t = trim_spec(s);
    if leading_ws(s) == s.len() {
        assert(leading_ws(t) == 0);
    } else {
        let a = leading_ws(s) as int;
        let e = s.len() - trailing_ws(s);
        assert(a < e);
        assert(t[0] == s[a]);
        assert(t[t.len() - 1] == s[e - 1]);
        lemma_leading_ws(t, 0);
        lemma_trailing_ws(t, 0);
        assert(t.subrange(0, t.len() as int) =~= t);
    }
}

/// The bytes `is_ascii_ws` accepts are exactly space, tab, line feed, form
/// feed and carriage return.
pub proof fn lemma_ascii_ws_bytes(b: u8)
    ensures
        is_ascii_ws(b) <==> (b == 0x20u8 || b == 0x09u8 || b == 0x0Au8 || b == 0x0Cu8 || b
            == 0x0Du8),
{
}

proof fn lemma_leading_ws_all(s: Seq<u8>)
    ensures
        forall|j: int| 0 <= j < leading_ws(s) ==> is_ascii_ws(#[trigger] s[j]),
    decreases s.len(),
{
    if s.len() > 0 && is_ascii_ws(s[0]) {
        let t = s.drop_first();
        lemma_leading_ws_all(t);
        lemma_leading_ws_stops(t);
        assert forall|j: int| 0 <= j < leading_ws(s) implies is_ascii_ws(#[trigger] s[j]) by {
            if j > 0 {
                assert(s[j] == t[j - 1]);
            }
        }
    }
}

/// Trimming removes exactly the surrounding ASCII whitespace: the input is
/// the trimmed part with only space, tab, line feed, form feed or carriage
/// return bytes before and after it, and the trimmed part, unless empty,
/// starts and ends with some other byte.
pub proof fn lemma_trim_strips_exactly_ascii_whitespace(s: Seq<u8>)
    ensures
        ({
            let ws = |b: u8|
                b == 0x20u8 || b == 0x09u8 || b == 0x0Au8 || b == 0x0Cu8 || b == 0x0Du8;
            let t = trim_spec(s);
            let before = s.take(leading_ws(s) as int);
            let after = s.skip((before.len() + t.len()) as int);
            &&& s == before + t + after
            &&& forall|j: int| 0 <= j < before.len() ==> ws(#[trigger] before[j])
            &&& forall|j: int| 0 <= j < after.len() ==> ws(#[trigger] after[j])
            &&& t.len() > 0 ==> !ws(t[0]) && !ws(t[t.len() - 1])
        }),
{
    lemma_leading_ws_stops(s);
    lemma_leading_ws_all(s);
    lemma_trailing_ws_all(s);
    lemma_trailing_ws_stops(s);
    let t = trim_spec(s);
    let a = leading_ws(s) as int;
    let before = s.take(a);
    let after = s.skip((before.len() + t.len()) as int);
    if a == s.len() {
        assert(before + t + after =~= s);
    } else {
        let e = s.len() - trailing_ws(s);
        assert(a < e);
        assert(before + t + after =~= s);
        assert(t[0] == s[a]);
        assert(t[t.len() - 1] == s[e - 1]);
        assert forall|j: int| 0 <= j < after.len() implies is_ascii_ws(#[trigger] after[j]) by {
            assert(after[j] == s[e + j]);
        }
    }
}

/// A record that starts and ends with a byte other than ASCII whitespace is
/// left as it is, and one made of ASCII whitespace only trims to nothing.
pub proof fn lemma_trim_keeps_and_empties(s: Seq<u8>)
    ensures
        ({
            let ws = |b: u8|
                b == 0x20u8 || b == 0x09u8 || b == 0x0Au8 || b == 0x0Cu8 || b == 0x0Du8;
            &&& s.len() > 0 && !ws(s[0]) && !ws(s[s.len() - 1]) ==> trim_spec(s) == s
            &&& (forall|j: int| 0 <= j < s.len() ==> ws(#[trigger] s[j])) ==> trim_spec(s).len()
                == 0
            &&& (exists|j: int| 0 <= j < s.len() && !ws(#[trigger] s[j])) ==> trim_spec(s).len()
                > 0
        }),
{
    let ws = |b: u8| b == 0x20u8 || b == 0x09u8 || b == 0x0Au8 || b == 0x0Cu8 || b == 0x0Du8;
    lemma_leading_ws_stops(s);
    lemma_leading_ws_all(s);
    if s.len() > 0 && !ws(s[0]) && !ws(s[s.len() - 1]) {
        lemma_leading_ws(s, 0);
        lemma_trailing_ws(s, 0);
        assert(s.subrange(0, s.len() as int) =~= s);
    }
    if forall|j: int| 0 <= j < s.len() ==> ws(#[trigger] s[j]) {
        assert forall|j: int| 0 <= j < s.len() implies is_ascii_ws(#[trigger] s[j]) by {
            assert(ws(s[j]));
        }
        lemma_leading_ws(s, s.len() as int);
    }
    if exists|j: int| 0 <= j < s.len() && !ws(#[trigger] s[j]) {
        let j = choose|j: int| 0 <= j < s.len() && !ws(#[trigger] s[j]);
        assert(!is_ascii_ws(s[j]));
        assert(leading_ws(s) < s.len());
        lemma_trailing_ws_all(s);
        lemma_trailing_ws_stops(s);
        assert(leading_ws(s) < s.len() - trailing_ws(s));
    }
}

/// The number of times `d` occurs in `s`.
pub open spec fn count_byte(s: Seq<u8>, d: u8) -> nat
    decreases s.len(),
{
    if s.len() == 0 {
        0
    } else {
        count_byte(s.drop_last(), d) + if s.last() == d {
            1nat
        } else {
            0nat
        }
    }
}

proof fn lemma_count_byte_concat(a: Seq<u8>, b: Seq<u8>, d: u8)
    ensures
        count_byte(a + b, d) == count_byte(a, d) + count_byte(b, d),
    decreases b.len(),
{
    if b.len() == 0 {
        assert(a + b =~= a);
    } else {
        assert((a + b).drop_last() =~= a + b.drop_last());
        lemma_count_byte_concat(a, b.drop_last(), d);
    }
}

proof fn lemma_count_byte_none(s: Seq<u8>, d: u8)
    requires
        no_byte(s, d),
    ensures
        count_byte(s, d) == 0,
    decreases s.len(),
{
    if s.len() > 0 {
        lemma_count_byte_none(s.drop_last(), d);
    }
}

/// A record holding `k` delimiters splits into `k + 1` fields.
pub proof fn lemma_split_count(s: Seq<u8>, d: u8)
    ensures
        split_on(s, d).len() == count_byte(s, d) + 1,
    decreases s.len(),
{
    lemma_first_of(s, d);
    match first_of(s, d) {
        None => {
            lemma_count_byte_none(s, d);
        },
        Some(i) => {
            let rest = s.skip(i + 1);
            lemma_split_count(rest, d);
            assert(s =~= s.take(i) + seq![d] + rest);
            lemma_count_byte_concat(s.take(i) + seq![d], rest, d);
            lemma_count_byte_concat(s.take(i), seq![d], d);
            lemma_count_byte_none(s.take(i), d);
            assert(seq![d].drop_last() =~= Seq::<u8>::empty());
            assert(count_byte(Seq::<u8>::empty(), d) == 0);
            assert(seq![d].last() == d);
            assert(count_byte(seq![d], d) == 1);
            assert(split_on(s, d) == seq![s.take(i)] + split_on(rest, d));
        },
    }
}

proof fn lemma_first_exists(s: Seq<u8>, b: u8, j: int)
    requires
        0 <= j < s.len(),
        s[j] == b,
    ensures
        exists|i: int| is_first(s, b, i),
    decreases j,
{
    if no_byte(s.take(j), b) {
        assert(is_first(s, b, j));
    } else {
        let k = choose|k: int| 0 <= k < s.take(j).len() && s.take(j)[k] == b;
        lemma_first_exists(s, b, k);
    }
}

/// What `first_of` gives: the first occurrence, or `None` when `b` is absent.
pub proof fn lemma_first_of(s: Seq<u8>, b: u8)
    ensures
        first_of(s, b) matches Some(i) ==> is_first(s, b, i),
        first_of(s, b) is None <==> no_byte(s, b),
{
    if !no_byte(s, b) {
        let j = choose|j: int| 0 <= j < s.len() && s[j] == b;
        lemma_first_exists(s, b, j);
    } else {
        assert forall|i: int| !is_first(s, b, i) by {
            if 0 <= i < s.len() {
                assert(s[i] != b);
            }
        }
    }
}

/// The first occurrence is unique: any position that is first is what
/// `first_of` gives.
pub proof fn lemma_first_of_is(s: Seq<u8>, b: u8, i: int)
    requires
        is_first(s, b, i),
    ensures
        first_of(s, b) == Some(i),
{
    lemma_first_of(s, b);
    let k = first_of(s, b)->0;
    if k < i {
        assert(s.take(i)[k] == b);
    } else if i < k {
        assert(s.take(k)[i] == b);
    }
}

proof fn lemma_leading_ws(s: Seq<u8>, i: int)
    requires
        0 <= i <= s.len(),
        forall|j: int| 0 <= j < i ==> is_ascii_ws(#[trigger] s[j]),
        i == s.len() || !is_ascii_ws(s[i]),
    ensures
        leading_ws(s) == i,
    decreases i,
{
    if i > 0 {
        let t = s.drop_first();
        assert forall|j: int| 0 <= j < i - 1 implies is_ascii_ws(#[trigger] t[j]) by {
            assert(t[j] == s[j + 1]);
        }
        lemma_leading_ws(t, i - 1);
    }
}

proof fn lemma_trailing_ws(s: Seq<u8>, k: int)
    requires
        0 <= k <= s.len(),
        forall|j: int| s.len() - k <= j < s.len() ==> is_ascii_ws(#[trigger] s[j]),
        k == s.len() || !is_ascii_ws(s[s.len() - k - 1]),
    ensures
        trailing_ws(s) == k,
    decreases k,
{
    if k > 0 {
        let t = s.drop_last();
        assert forall|j: int| t.len() - (k - 1) <= j < t.len() implies is_ascii_ws(
            #[trigger] t[j],
        ) by {
            assert(t[j] == s[j]);
        }
        lemma_trailing_ws(t, k - 1);
    }
}

fn is_ws(b: u8) -> (r: bool)
    ensures
        r == is_ascii_ws(b),
{
    b == 0x20u8 || b == 0x09u8 || b == 0x0Au8 || b == 0x0Cu8 || b == 0x0Du8
}

/// Returns the index of the first occurrence of `byte` in `input`, if any.
pub fn find_byte(input: &[u8], byte: u8) -> (found: Option<usize>)
    ensures
        found matches Some(i) ==> is_first(input@, byte, i as int),
        found is None ==> no_byte(input@, byte),
        found matches Some(i) ==> first_of(input@, byte) == Some(i as int),
        found is None ==> first_of(input@, byte) is None,
{
    let mut i: usize = 0;
    while i < input.len()
        invariant
            i <= input@.len(),
            no_byte(input@.take(i as int), byte),
        decreases input@.len() - i,
    {
        if input[i] == byte {
            proof {
                lemma_first_of_is(input@, byte, i as int);
            }
            return Some(i);
        }
        proof {
            assert forall|j: int| 0 <= j < i + 1 implies #[trigger] input@.take(i + 1)[j]
                != byte by {
                if j < i {
                    assert(input@.take(i as int)[j] == input@[j]);
                }
            }
        }
        i += 1;
    }
    proof {
        assert(input@.take(i as int) =~= input@);
        lemma_first_of(input@, byte);
    }
    None
}

/// Splits `record` into field sub-slices on `delimiter`, borrowing from
/// `record` (zero-copy).
pub fn split_fields(record: &[u8], delimiter: u8) -> (fields: Vec<&[u8]>)
    ensures
        fields@.map_values(|f: &[u8]| f@) == split_on(record@, delimiter),
{
    let mut fields: Vec<&[u8]> = Vec::new();
    let mut start: usize = 0;
    let mut i: usize = 0;
    proof {
        assert(record@.skip(0) =~= record@);
        assert(fields@.map_values(|f: &[u8]| f@) + split_on(record@.skip(0), delimiter)
            =~= split_on(record@, delimiter));
    }
    while i < record.len()
        invariant
            start <= i <= record@.len(),
            fields@.map_values(|f: &[u8]| f@) + split_on(record@.skip(start as int), delimiter)
                == split_on(record@, delimiter),
            no_byte(record@.subrange(start as int, i as int), delimiter),
        decreases record@.len() - i,
    {
        if record[i] == delimiter {
            let ghost t = record@.skip(start as int);
            proof {
                assert(t.take(i - start) =~= record@.subrange(start as int, i as int));
                lemma_first_of_is(t, delimiter, i - start);
                assert(t.skip(i - start + 1) =~= record@.skip(i + 1));
            }
            let field = &record[start..i];
            let ghost before = fields@;
            fields.push(field);
            proof {
                assert(fields@.map_values(|f: &[u8]| f@) =~= before.map_values(|f: &[u8]| f@).push(
                    field@,
                ));
                assert(fields@.map_values(|f: &[u8]| f@) + split_on(
                    record@.skip(i + 1),
                    delimiter,
                ) =~= before.map_values(|f: &[u8]| f@) + split_on(t, delimiter));
            }
            start = i + 1;
        }
        proof {
            assert forall|j: int| 0 <= j < i + 1 - start implies #[trigger] record@.subrange(
                start as int,
                i + 1,
            )[j] != delimiter by {
                if j < i - start {
                    assert(record@.subrange(start as int, i as int)[j] == record@[start + j]);
                }
            }
        }
        i += 1;
    }
    let last = &record[start..record.len()];
    let ghost before = fields@;
    fields.push(last);
    proof {
        let t = record@.skip(start as int);
        assert(t =~= record@.subrange(start as int, i as int));
        lemma_first_of(t, delimiter);
        assert(fields@.map_values(|f: &[u8]| f@) =~= before.map_values(|f: &[u8]| f@).push(last@));
        assert(split_on(t, delimiter) =~= seq![t]);
    }
    fields
}

/// Returns `input` with leading and trailing ASCII whitespace removed, as a
/// borrowed sub-slice (zero-copy). Handles CRLF line endings naturally.
pub fn trim(input: &[u8]) -> (trimmed: &[u8])
    ensures
        trimmed@ == trim_spec(input@),
{
    let len = input.len();
    let mut start: usize = 0;
    while start < len && is_ws(input[start])
        invariant
            start <= len == input@.len(),
            forall|j: int| 0 <= j < start ==> is_ascii_ws(#[trigger] input@[j]),
        decreases len - start,
    {
        start += 1;
    }
    proof {
        lemma_leading_ws(input@, start as int);
    }
    let mut end: usize = len;
    while end > start && is_ws(input[end - 1])
        invariant
            start <= end <= len == input@.len(),
            forall|j: int| end <= j < len ==> is_ascii_ws(#[trigger] input@[j]),
            start < len ==> !is_ascii_ws(input@[start as int]),
        decreases end - start,
    {
        end -= 1;
    }
    proof {
        if start < len {
            lemma_trailing_ws(input@, len - end);
        } else {
            assert(input@.subrange(start as int, end as int) =~= Seq::<u8>::empty());
        }
    }
    &input[start..end]
}

} // verus!
