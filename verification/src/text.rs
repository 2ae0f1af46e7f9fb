//! Text as sequences of characters: decimal numbers, fields between separators,
//! surrounding white space. What splits or trims a text answers with positions in
//! it, so that a caller can cut the matching pieces out of the string it started
//! from.

use vstd::prelude::*;
use vstd::slice::slice_subrange;
use vstd::string::StringSliceAdditionalSpecFns;
use vstd::utf8::encode_utf8_decode_utf8;

verus! {

/// An ASCII decimal digit.
pub open spec fn is_digit(c: char) -> bool {
    '0' <= c <= '9'
}

/// The number a decimal digit stands for.
pub open spec fn digit_value(c: char) -> nat {
    (c as int - '0' as int) as nat
}

/// Every character of `s` is a decimal digit.
pub open spec fn all_digits(s: Seq<char>) -> bool {
    forall|i: int| 0 <= i < s.len() ==> is_digit(#[trigger] s[i])
}

/// The number that a string of decimal digits spells, most significant digit first.
pub open spec fn decimal(s: Seq<char>) -> nat
    decreases s.len(),
{
    if s.len() == 0 {
        0
    } else {
        decimal(s.drop_last()) * 10 + digit_value(s.last())
    }
}

/// What is left of a number's text once an optional leading `+` is taken off.
pub open spec fn unsigned_body(s: Seq<char>) -> Seq<char> {
    if s.len() > 0 && s[0] == '+' {
        s.skip(1)
    } else {
        s
    }
}

/// The unsigned number that `s` spells, if it spells one that is at most `max`:
/// an optional `+`, then one or more decimal digits.
pub open spec fn unsigned(s: Seq<char>, max: nat) -> Option<nat> {
    let body = unsigned_body(s);
    if body.len() > 0 && all_digits(body) && decimal(body) <= max {
        Some(decimal(body))
    } else {
        None
    }
}

/// A longer string of digits never spells a smaller number than one of its prefixes.
pub proof fn lemma_decimal_prefix(s: Seq<char>, n: int)
    requires
        0 <= n <= s.len(),
    ensures
        decimal(s.take(n)) <= decimal(s),
    decreases s.len(),
{
    if n == s.len() {
        assert(s.take(n) =~= s);
    } else {
        lemma_decimal_prefix(s.drop_last(), n);
        assert(s.drop_last().take(n) =~= s.take(n));
    }
}

/// The characters of a string, in order.
pub fn chars_of(s: &str) -> (v: Vec<char>)
    ensures
        v@ == s@,
{
    let mut v: Vec<char> = Vec::new();
    for c in it: s.chars()
        invariant
            v@ == it.seq().take(it.index()),
            it.seq() == s@,
    {
        v.push(c);
    }
    v
}

/// The value of a decimal digit, or `None` for any other character.
pub fn digit_of(c: char) -> (r: Option<u32>)
    ensures
        r is Some <==> is_digit(c),
        r is Some ==> r->0 == digit_value(c),
{
    if c >= '0' && c <= '9' {
        Some(c as u32 - '0' as u32)
    } else {
        None
    }
}

/// Reads an unsigned decimal number that may not exceed `max`.
pub fn parse_number(s: &[char], max: u64) -> (r: Option<u64>)
    ensures
        match r {
            Some(v) => unsigned(s@, max as nat) == Some(v as nat),
            None => unsigned(s@, max as nat) is None,
        },
{
    let n: usize = s.len();
    let start: usize = if n > 0 && s[0] == '+' { 1 } else { 0 };
    let ghost body = unsigned_body(s@);
    assert(body =~= s@.skip(start as int));
    if start == n {
        return None;
    }
    let mut acc: u64 = 0;
    let mut i: usize = start;
    while i < n
        invariant
            start <= i <= n,
            n == s@.len(),
            body == s@.skip(start as int),
            body == unsigned_body(s@),
            all_digits(body.take(i - start)),
            acc == decimal(body.take(i - start)),
            acc <= max,
        decreases n - i,
    {
        let ghost before = body.take(i - start);
        let ghost after = body.take(i + 1 - start);
        assert(after.drop_last() =~= before);
        assert(after.last() == s@[i as int]);
        let d: u64 = match digit_of(s[i]) {
            Some(d) => d as u64,
            None => {
                assert(!is_digit(body[i - start]));
                return None;
            },
        };
        let next: Option<u64> = match acc.checked_mul(10) {
            Some(t) => t.checked_add(d),
            None => None,
        };
        proof {
            if all_digits(body) {
                lemma_decimal_prefix(body, i + 1 - start);
            }
            assert(decimal(after) == acc * 10 + d);
        }
        match next {
            Some(v) => {
                if v > max {
                    return None;
                }
                acc = v;
            },
            None => {
                return None;
            },
        }
        assert forall|k: int| 0 <= k < after.len() implies is_digit(#[trigger] after[k]) by {
            if k < before.len() {
                assert(after[k] == before[k]);
            }
        }
        i += 1;
    }
    assert(body.take(n - start) =~= body);
    Some(acc)
}

/// The position of the first `c` in `s`, or the length of `s` where there is none.
pub open spec fn first_index(s: Seq<char>, c: char) -> int
    decreases s.len(),
{
    if s.len() == 0 || s[0] == c {
        0
    } else {
        1 + first_index(s.skip(1), c)
    }
}

/// `first_index` is the one position before which no `c` stands and at which one
/// does, unless the string ends there.
pub proof fn lemma_first_index(s: Seq<char>, c: char, k: int)
    requires
        0 <= k <= s.len(),
        forall|i: int| 0 <= i < k ==> s[i] != c,
        k < s.len() ==> s[k] == c,
    ensures
        first_index(s, c) == k,
    decreases s.len(),
{
    if s.len() == 0 || s[0] == c {
    } else {
        lemma_first_index(s.skip(1), c, k - 1);
    }
}

/// The fields of `s` between occurrences of `sep`: one more than there are
/// separators, empty ones included.
pub open spec fn fields(s: Seq<char>, sep: char) -> Seq<Seq<char>>
    decreases s.len(),
{
    let k = first_index(s, sep);
    if 0 <= k < s.len() {
        seq![s.take(k)] + fields(s.skip(k + 1), sep)
    } else {
        seq![s]
    }
}

/// The piece of `s` between two positions.
pub open spec fn cut(s: Seq<char>, b: (usize, usize)) -> Seq<char> {
    s.subrange(b.0 as int, b.1 as int)
}

/// The pieces of `s` that a list of position pairs marks.
pub open spec fn cuts(s: Seq<char>, bounds: Seq<(usize, usize)>) -> Seq<Seq<char>> {
    Seq::new(bounds.len(), |i: int| cut(s, bounds[i]))
}

/// Every pair is a start and an end inside `s`, in that order.
pub open spec fn within(s: Seq<char>, bounds: Seq<(usize, usize)>) -> bool {
    forall|i: int| 0 <= i < bounds.len() ==> (#[trigger] bounds[i]).0 <= bounds[i].1 <= s.len()
}

/// Splits `s` at every `sep` and gives the bounds of each field.
pub fn split(s: &[char], sep: char) -> (r: Vec<(usize, usize)>)
    ensures
        within(s@, r@),
        cuts(s@, r@) == fields(s@, sep),
        r@.len() >= 1,
{
    let n: usize = s.len();
    let mut out: Vec<(usize, usize)> = Vec::new();
    let mut start: usize = 0;
    let mut i: usize = 0;
    assert(s@.skip(0) =~= s@);
    assert(cuts(s@, out@) + fields(s@, sep) =~= fields(s@, sep));
    while i < n
        invariant
            start <= i <= n,
            n == s@.len(),
            within(s@, out@),
            forall|j: int| start <= j < i ==> s@[j] != sep,
            fields(s@, sep) == cuts(s@, out@) + fields(s@.skip(start as int), sep),
        decreases n - i,
    {
        if s[i] == sep {
            let ghost rest = s@.skip(start as int);
            let ghost before = out@;
            proof {
                lemma_first_index(rest, sep, i - start);
                assert(rest.take(i - start) =~= s@.subrange(start as int, i as int));
                assert(rest.skip(i - start + 1) =~= s@.skip(i + 1));
            }
            out.push((start, i));
            proof {
                assert(cuts(s@, out@) =~= cuts(s@, before) + seq![
                    s@.subrange(start as int, i as int),
                ]);
                assert(cuts(s@, before) + (seq![s@.subrange(start as int, i as int)] + fields(
                    s@.skip(i + 1),
                    sep,
                )) =~= cuts(s@, out@) + fields(s@.skip(i + 1), sep));
            }
            start = i + 1;
        }
        i += 1;
    }
    let ghost rest = s@.skip(start as int);
    let ghost before = out@;
    proof {
        lemma_first_index(rest, sep, n - start);
        assert(rest =~= s@.subrange(start as int, n as int));
    }
    out.push((start, n));
    proof {
        assert(cuts(s@, out@) =~= cuts(s@, before) + seq![rest]);
    }
    out
}

/// White space: the characters that carry Unicode's `White_Space` property.
pub open spec fn is_space(c: char) -> bool {
    ||| c == ' '
    ||| '\u{9}' <= c <= '\u{d}'
    ||| c == '\u{85}'
    ||| c == '\u{a0}'
    ||| c == '\u{1680}'
    ||| '\u{2000}' <= c <= '\u{200a}'
    ||| c == '\u{2028}'
    ||| c == '\u{2029}'
    ||| c == '\u{202f}'
    ||| c == '\u{205f}'
    ||| c == '\u{3000}'
}

/// `s` without the white space it begins with.
pub open spec fn trim_start(s: Seq<char>) -> Seq<char>
    decreases s.len(),
{
    if s.len() > 0 && is_space(s[0]) {
        trim_start(s.skip(1))
    } else {
        s
    }
}

/// `s` without the white space it ends with.
pub open spec fn trim_end(s: Seq<char>) -> Seq<char>
    decreases s.len(),
{
    if s.len() > 0 && is_space(s.last()) {
        trim_end(s.drop_last())
    } else {
        s
    }
}

/// `s` without the white space at either end.
pub open spec fn trimmed(s: Seq<char>) -> Seq<char> {
    trim_end(trim_start(s))
}

/// Leading white space ends at the first character that is none.
pub proof fn lemma_trim_start(s: Seq<char>, k: int)
    requires
        0 <= k <= s.len(),
        forall|i: int| 0 <= i < k ==> is_space(s[i]),
        k < s.len() ==> !is_space(s[k]),
    ensures
        trim_start(s) == s.skip(k),
    decreases s.len(),
{
    if k == 0 {
        assert(s.skip(0) =~= s);
    } else {
        lemma_trim_start(s.skip(1), k - 1);
        assert(s.skip(1).skip(k - 1) =~= s.skip(k));
    }
}

/// Trailing white space begins after the last character that is none.
pub proof fn lemma_trim_end(s: Seq<char>, k: int)
    requires
        0 <= k <= s.len(),
        forall|i: int| k <= i < s.len() ==> is_space(s[i]),
        k > 0 ==> !is_space(s[k - 1]),
    ensures
        trim_end(s) == s.take(k),
    decreases s.len(),
{
    if k == s.len() {
        assert(s.take(k) =~= s);
    } else {
        lemma_trim_end(s.drop_last(), k);
        assert(s.drop_last().take(k) =~= s.take(k));
    }
}

/// Tells white space from other characters.
pub fn is_space_char(c: char) -> (r: bool)
    ensures
        r == is_space(c),
{
    c == ' ' || (c >= '\u{9}' && c <= '\u{d}') || c == '\u{85}' || c == '\u{a0}' || c
        == '\u{1680}' || (c >= '\u{2000}' && c <= '\u{200a}') || c == '\u{2028}' || c
        == '\u{2029}' || c == '\u{202f}' || c == '\u{205f}' || c == '\u{3000}'
}

/// The bounds of `s` without the white space at either end.
pub fn trim(s: &[char]) -> (r: (usize, usize))
    ensures
        r.0 <= r.1 <= s@.len(),
        cut(s@, r) == trimmed(s@),
{
    let n: usize = s.len();
    let mut a: usize = 0;
    while a < n && is_space_char(s[a])
        invariant
            a <= n,
            n == s@.len(),
            forall|i: int| 0 <= i < a ==> is_space(s@[i]),
        decreases n - a,
    {
        a += 1;
    }
    let mut b: usize = n;
    while b > a && is_space_char(s[b - 1])
        invariant
            a <= b <= n,
            n == s@.len(),
            forall|i: int| b <= i < n ==> is_space(s@[i]),
        decreases b,
    {
        b -= 1;
    }
    proof {
        lemma_trim_start(s@, a as int);
        let t = s@.skip(a as int);
        lemma_trim_end(t, b - a);
        assert(t.take(b - a) =~= s@.subrange(a as int, b as int));
    }
    (a, b)
}

/// `p` stands in `s` at position `i`.
pub open spec fn has_at(s: Seq<char>, i: int, p: Seq<char>) -> bool {
    0 <= i && i + p.len() <= s.len() && s.subrange(i, i + p.len()) == p
}

/// `s` begins with `p`.
pub open spec fn has_prefix(s: Seq<char>, p: Seq<char>) -> bool {
    has_at(s, 0, p)
}

/// Tests whether `p` stands in `s` at position `i`.
pub fn matches_at(s: &[char], i: usize, p: &[char]) -> (r: bool)
    ensures
        r == has_at(s@, i as int, p@),
{
    let n: usize = s.len();
    let m: usize = p.len();
    if i > n || m > n - i {
        return false;
    }
    let mut k: usize = 0;
    while k < m
        invariant
            k <= m,
            m == p@.len(),
            n == s@.len(),
            i + m <= n,
            forall|j: int| 0 <= j < k ==> s@[i + j] == p@[j],
        decreases m - k,
    {
        if s[i + k] != p[k] {
            proof {
                let w = s@.subrange(i as int, i + m);
                assert(w[k as int] != p@[k as int]);
            }
            return false;
        }
        k += 1;
    }
    assert(s@.subrange(i as int, i + m) =~= p@);
    true
}

/// Tests whether two texts are the same.
pub fn same(a: &[char], b: &[char]) -> (r: bool)
    ensures
        r == (a@ == b@),
{
    if a.len() != b.len() {
        return false;
    }
    let r = matches_at(a, 0, b);
    proof {
        assert(a@.subrange(0, a@.len() as int) =~= a@);
    }
    r
}

/// Tests whether two strings hold the same characters.
pub fn same_str(a: &str, b: &str) -> (r: bool)
    ensures
        r == (a@ == b@),
{
    let x = a.as_bytes();
    let y = b.as_bytes();
    proof {
        encode_utf8_decode_utf8(a@);
        encode_utf8_decode_utf8(b@);
    }
    if x.len() != y.len() {
        return false;
    }
    let n: usize = x.len();
    let mut i: usize = 0;
    while i < n
        invariant
            i <= n,
            n == x@.len(),
            n == y@.len(),
            x@ == a.spec_bytes(),
            y@ == b.spec_bytes(),
            forall|j: int| 0 <= j < i ==> x@[j] == y@[j],
        decreases n - i,
    {
        if x[i] != y[i] {
            assert(x@[i as int] != y@[i as int]);
            return false;
        }
        i += 1;
    }
    assert(x@ =~= y@);
    true
}

/// The texts of a list of strings.
pub open spec fn texts(lines: Seq<String>) -> Seq<Seq<char>> {
    Seq::new(lines.len(), |i: int| lines[i]@)
}

/// The numbers that a list of fields spells, none above `max`, or `None` if a field
/// spells no such number. With `skip_empty`, empty fields are passed over; with
/// `trim`, white space round each number is allowed.
pub open spec fn numbers(f: Seq<Seq<char>>, max: nat, skip_empty: bool, trim: bool) -> Option<
    Seq<u64>,
>
    decreases f.len(),
{
    if f.len() == 0 {
        Some(Seq::empty())
    } else {
        match numbers(f.drop_last(), max, skip_empty, trim) {
            None => None,
            Some(v) => if skip_empty && f.last().len() == 0 {
                Some(v)
            } else {
                match unsigned(if trim { trimmed(f.last()) } else { f.last() }, max) {
                    None => None,
                    Some(x) => Some(v.push(x as u64)),
                }
            },
        }
    }
}

/// Reads the number of each field that `bounds` marks in `s`.
pub fn parse_numbers(
    s: &[char],
    bounds: &[(usize, usize)],
    max: u64,
    skip_empty: bool,
    trim_each: bool,
) -> (r: Option<Vec<u64>>)
    requires
        within(s@, bounds@),
    ensures
        match r {
            Some(v) => numbers(cuts(s@, bounds@), max as nat, skip_empty, trim_each) == Some(v@),
            None => numbers(cuts(s@, bounds@), max as nat, skip_empty, trim_each) is None,
        },
{
    let ghost f = cuts(s@, bounds@);
    let mut out: Vec<u64> = Vec::new();
    let mut i: usize = 0;
    assert(f.take(0) =~= Seq::<Seq<char>>::empty());
    while i < bounds.len()
        invariant
            i <= bounds@.len(),
            within(s@, bounds@),
            f == cuts(s@, bounds@),
            numbers(f.take(i as int), max as nat, skip_empty, trim_each) == Some(out@),
        decreases bounds@.len() - i,
    {
        let (a, b) = bounds[i];
        assert(f.take(i + 1).drop_last() =~= f.take(i as int));
        assert(f.take(i + 1).last() == cut(s@, bounds@[i as int]));
        let ghost step = f.take(i + 1);
        if skip_empty && a == b {
        } else {
            let field = slice_subrange(s, a, b);
            let piece = if trim_each {
                let (c, d) = trim(field);
                slice_subrange(field, c, d)
            } else {
                field
            };
            match parse_number(piece, max) {
                Some(x) => {
                    out.push(x);
                },
                None => {
                    proof {
                        lemma_numbers_prefix(f, i + 1, max as nat, skip_empty, trim_each);
                    }
                    return None;
                },
            }
        }
        i += 1;
    }
    assert(f.take(bounds@.len() as int) =~= f);
    Some(out)
}

/// Where the first fields of a list spell no numbers, the whole list spells none.
pub proof fn lemma_numbers_prefix(
    f: Seq<Seq<char>>,
    n: int,
    max: nat,
    skip_empty: bool,
    trim: bool,
)
    requires
        0 <= n <= f.len(),
        numbers(f.take(n), max, skip_empty, trim) is None,
    ensures
        numbers(f, max, skip_empty, trim) is None,
    decreases f.len(),
{
    if n == f.len() {
        assert(f.take(n) =~= f);
    } else {
        assert(f.drop_last().take(n) =~= f.take(n));
        lemma_numbers_prefix(f.drop_last(), n, max, skip_empty, trim);
    }
}

/// The values of the entries of a list that hold one, in order.
pub open spec fn somes<T>(s: Seq<Option<T>>) -> Seq<T>
    decreases s.len(),
{
    if s.len() == 0 {
        Seq::empty()
    } else {
        match s.last() {
            Some(x) => somes(s.drop_last()).push(x),
            None => somes(s.drop_last()),
        }
    }
}

/// How many decimal digits `s` begins with.
pub open spec fn digit_run(s: Seq<char>) -> int
    decreases s.len(),
{
    if s.len() > 0 && is_digit(s[0]) {
        1 + digit_run(s.skip(1))
    } else {
        0
    }
}

/// The run of digits at the start of `s` ends at the first character that is none.
pub proof fn lemma_digit_run(s: Seq<char>, k: int)
    requires
        0 <= k <= s.len(),
        forall|i: int| 0 <= i < k ==> is_digit(s[i]),
        k < s.len() ==> !is_digit(s[k]),
    ensures
        digit_run(s) == k,
    decreases s.len(),
{
    if k > 0 {
        lemma_digit_run(s.skip(1), k - 1);
    }
}

/// `s` with every occurrence of `p` taken out, found from left to right without
/// overlap.
pub open spec fn without(s: Seq<char>, p: Seq<char>) -> Seq<char>
    decreases s.len(),
{
    if s.len() == 0 {
        s
    } else if p.len() > 0 && has_prefix(s, p) {
        without(s.skip(p.len() as int), p)
    } else {
        seq![s[0]] + without(s.skip(1), p)
    }
}

/// Takes every occurrence of `p` out of `s`.
pub fn remove_all(s: &[char], p: &[char]) -> (r: Vec<char>)
    requires
        p@.len() > 0,
    ensures
        r@ == without(s@, p@),
{
    let n: usize = s.len();
    let m: usize = p.len();
    let mut out: Vec<char> = Vec::new();
    let mut i: usize = 0;
    assert(s@.skip(0) =~= s@);
    while i < n
        invariant
            i <= n,
            n == s@.len(),
            m == p@.len(),
            m > 0,
            without(s@, p@) == out@ + without(s@.skip(i as int), p@),
        decreases n - i,
    {
        let ghost rest = s@.skip(i as int);
        let hit = matches_at(s, i, p);
        proof {
            if i + m <= n {
                assert(rest.subrange(0, m as int) =~= s@.subrange(i as int, i + m));
            }
            assert(hit == has_prefix(rest, p@));
        }
        if hit {
            assert(rest.skip(m as int) =~= s@.skip(i + m));
            i += m;
        } else {
            let ghost before = out@;
            out.push(s[i]);
            assert(rest.skip(1) =~= s@.skip(i + 1));
            assert(before + (seq![s@[i as int]] + without(s@.skip(i + 1), p@)) =~= out@ + without(
                s@.skip(i + 1),
                p@,
            ));
            i += 1;
        }
    }
    assert(out@ + Seq::<char>::empty() =~= out@);
    out
}

/// Finds the first `c` in `s`.
pub fn find_char(s: &[char], c: char) -> (k: usize)
    ensures
        k == first_index(s@, c),
        k <= s@.len(),
        k < s@.len() ==> s@[k as int] == c,
{
    let n: usize = s.len();
    let mut k: usize = 0;
    while k < n && s[k] != c
        invariant
            k <= n,
            n == s@.len(),
            forall|j: int| 0 <= j < k ==> s@[j] != c,
        decreases n - k,
    {
        k += 1;
    }
    proof {
        lemma_first_index(s@, c, k as int);
    }
    k
}

/// The fields of a list that are not empty, in order.
pub open spec fn filled(f: Seq<Seq<char>>) -> Seq<Seq<char>> {
    somes(Seq::new(f.len(), |i: int| if f[i].len() > 0 { Some(f[i]) } else { None }))
}

/// What each field that is not empty spells as a number of 64 bits, if it spells one.
pub open spec fn readings(f: Seq<Seq<char>>) -> Seq<Option<u64>> {
    Seq::new(
        filled(f).len(),
        |i: int|
            match unsigned(filled(f)[i], u64::MAX as nat) {
                Some(x) => Some(x as u64),
                None => None,
            },
    )
}

/// Reads each field that is not empty as a number, one by one.
pub fn parse_each(s: &[char], bounds: &[(usize, usize)]) -> (r: Vec<Option<u64>>)
    requires
        within(s@, bounds@),
    ensures
        r@ == readings(cuts(s@, bounds@)),
{
    let ghost f = cuts(s@, bounds@);
    let ghost picks = Seq::new(f.len(), |i: int| if f[i].len() > 0 { Some(f[i]) } else { None });
    let mut out: Vec<Option<u64>> = Vec::new();
    let ghost mut kept: Seq<Seq<char>> = Seq::empty();
    let mut i: usize = 0;
    assert(picks.take(0) =~= Seq::<Option<Seq<char>>>::empty());
    while i < bounds.len()
        invariant
            i <= bounds@.len(),
            within(s@, bounds@),
            f == cuts(s@, bounds@),
            picks == Seq::new(f.len(), |i: int| if f[i].len() > 0 { Some(f[i]) } else { None }),
            kept == somes(picks.take(i as int)),
            out@.len() == kept.len(),
            forall|j: int|
                0 <= j < kept.len() ==> #[trigger] out@[j] == (match unsigned(
                    kept[j],
                    u64::MAX as nat,
                ) {
                    Some(x) => Some(x as u64),
                    None => None,
                }),
        decreases bounds@.len() - i,
    {
        let (a, b) = bounds[i];
        assert(picks.take(i + 1).drop_last() =~= picks.take(i as int));
        assert(picks.take(i + 1).last() == picks[i as int]);
        assert(f[i as int] == cut(s@, bounds@[i as int]));
        if a != b {
            let piece = slice_subrange(s, a, b);
            out.push(parse_number(piece, u64::MAX));
            proof {
                kept = kept.push(f[i as int]);
            }
        }
        i += 1;
    }
    assert(picks.take(bounds@.len() as int) =~= picks);
    assert(out@ =~= readings(f));
    out
}

} // verus!
