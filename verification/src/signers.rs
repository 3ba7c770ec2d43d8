//! The list of signers as the command line gives it: decimal slot numbers,
//! separated by commas, with blanks allowed around each.

use vstd::prelude::*;
use vstd::slice::slice_subrange;
use crate::types::HostError;

verus! {

/// The number of slots a signer can be chosen from.
pub const COMMITTEE_SLOTS: usize = 64;

/// Whether a character is white space.
pub open spec fn is_space(c: char) -> bool {
    ||| '\u{9}' <= c <= '\u{d}'
    ||| c == ' '
    ||| c == '\u{85}'
    ||| c == '\u{a0}'
    ||| c == '\u{1680}'
    ||| '\u{2000}' <= c <= '\u{200a}'
    ||| c == '\u{2028}'
    ||| c == '\u{2029}'
    ||| c == '\u{202f}'
    ||| c == '\u{205f}'
    ||| c == '\u{3000}'
}

/// Whether a character is white space.
pub fn is_space_char(c: char) -> (r: bool)
    ensures
        r == is_space(c),
{
    ('\u{9}' <= c && c <= '\u{d}') || c == ' ' || c == '\u{85}' || c == '\u{a0}' || c
        == '\u{1680}' || ('\u{2000}' <= c && c <= '\u{200a}') || c == '\u{2028}' || c
        == '\u{2029}' || c == '\u{202f}' || c == '\u{205f}' || c == '\u{3000}'
}

/// The characters of a text.
pub fn chars_of(s: &str) -> (v: Vec<char>)
    ensures
        v@ == s@,
{
    let mut v: Vec<char> = Vec::new();
    for c in it: s.chars()
        invariant
            v@ == it.seq().take(it.index() as int),
            it.seq() == s@,
    {
        v.push(c);
        assert(v@ =~= it.seq().take(it.index() + 1));
    }
    assert(v@ =~= s@);
    v
}

/// The first position at or after `i` that holds no white space.
pub open spec fn skip_spaces(s: Seq<char>, i: int) -> int
    decreases s.len() - i,
{
    if 0 <= i < s.len() && is_space(s[i]) {
        skip_spaces(s, i + 1)
    } else {
        i
    }
}

/// The end of the text before `j` once trailing white space is dropped,
/// never going below `lo`.
pub open spec fn back_spaces(s: Seq<char>, lo: int, j: int) -> int
    decreases j - lo,
{
    if lo < j <= s.len() && is_space(s[j - 1]) {
        back_spaces(s, lo, j - 1)
    } else {
        j
    }
}

/// The text without the white space at either end.
pub open spec fn trim(s: Seq<char>) -> Seq<char> {
    let a = skip_spaces(s, 0);
    s.subrange(a, back_spaces(s, a, s.len() as int))
}

/// The bounds of the text without the white space at either end.
pub fn trim_bounds(s: &[char]) -> (r: (usize, usize))
    ensures
        r.0 <= r.1 <= s@.len(),
        r.0 == skip_spaces(s@, 0),
        r.1 == back_spaces(s@, r.0 as int, s@.len() as int),
        s@.subrange(r.0 as int, r.1 as int) == trim(s@),
{
    let n = s.len();
    let mut a: usize = 0;
    while a < n && is_space_char(s[a])
        invariant
            a <= n,
            n == s@.len(),
            skip_spaces(s@, a as int) == skip_spaces(s@, 0),
        decreases n - a,
    {
        a += 1;
    }
    let mut b: usize = n;
    while b > a && is_space_char(s[b - 1])
        invariant
            a <= b <= n,
            n == s@.len(),
            back_spaces(s@, a as int, b as int) == back_spaces(s@, a as int, n as int),
        decreases b - a,
    {
        b -= 1;
    }
    (a, b)
}

/// Whether a character is a decimal digit.
pub open spec fn is_digit(c: char) -> bool {
    '0' <= c <= '9'
}

/// Whether every character is a decimal digit.
pub open spec fn all_digits(d: Seq<char>) -> bool {
    forall|i: int| 0 <= i < d.len() ==> is_digit(#[trigger] d[i])
}

/// The number that decimal digits stand for.
pub open spec fn decimal(d: Seq<char>) -> nat
    decreases d.len(),
{
    if d.len() == 0 {
        0
    } else {
        (10 * decimal(d.drop_last()) + (d.last() as int - '0' as int)) as nat
    }
}

/// The number that the first digits stand for is no more than the number
/// that all of them stand for.
pub proof fn lemma_decimal_grows(d: Seq<char>, m: int)
    requires
        all_digits(d),
        0 <= m <= d.len(),
    ensures
        decimal(d.take(m)) <= decimal(d),
    decreases d.len() - m,
{
    if m < d.len() {
        lemma_decimal_grows(d, m + 1);
        assert(d.take(m + 1).drop_last() =~= d.take(m));
        assert(is_digit(d[m]));
        assert(d.take(m + 1).last() == d[m]);
    } else {
        assert(d.take(m) =~= d);
    }
}

/// The text without one leading `+`.
pub open spec fn strip_plus(t: Seq<char>) -> Seq<char> {
    if t.len() > 0 && t[0] == '+' {
        t.skip(1)
    } else {
        t
    }
}

/// The slot that one entry of the list names: after trimming, an optional
/// `+` and at least one decimal digit, for a number that the machine can
/// hold and that is below the number of slots. `entry` is the number of the
/// entry in the list, which a failure to read it reports.
pub open spec fn spec_index(part: Seq<char>, entry: usize) -> Result<usize, HostError> {
    let digits = strip_plus(trim(part));
    if digits.len() == 0 || !all_digits(digits) {
        Err(HostError::BadIndex { entry })
    } else if decimal(digits) > usize::MAX {
        Err(HostError::BadIndex { entry })
    } else if decimal(digits) >= COMMITTEE_SLOTS {
        Err(HostError::IndexOutOfRange { index: decimal(digits) as usize })
    } else {
        Ok(decimal(digits) as usize)
    }
}

/// Reads the slot that one entry of the list names.
pub fn parse_index(part: &[char], entry: usize) -> (r: Result<usize, HostError>)
    ensures
        r == spec_index(part@, entry),
{
    let (a, b) = trim_bounds(part);
    let from: usize = if a < b && part[a] == '+' {
        a + 1
    } else {
        a
    };
    let ghost digits = strip_plus(trim(part@));
    assert(digits =~= part@.subrange(from as int, b as int));
    if from == b {
        return Err(HostError::BadIndex { entry });
    }
    let mut value: usize = 0;
    let mut k: usize = from;
    while k < b
        invariant
            from <= k <= b <= part@.len(),
            digits == part@.subrange(from as int, b as int),
            digits == strip_plus(trim(part@)),
            all_digits(digits.take(k - from)),
            value == decimal(digits.take(k - from)),
        decreases b - k,
    {
        let c = part[k];
        let ghost seen = digits.take(k - from + 1);
        assert(seen.drop_last() =~= digits.take(k - from));
        assert(seen.last() == c);
        assert(digits[k - from] == c);
        if !('0' <= c && c <= '9') {
            assert(!is_digit(digits[k - from]));
            assert(!all_digits(digits));
            return Err(HostError::BadIndex { entry });
        }
        let digit = (c as u32 - '0' as u32) as usize;
        assert(decimal(seen) == 10 * value + digit);
        if value > (usize::MAX - digit) / 10 {
            proof {
                assert(10 * value + digit > usize::MAX);
                if all_digits(digits) {
                    lemma_decimal_grows(digits, k - from + 1);
                }
            }
            return Err(HostError::BadIndex { entry });
        }
        value = value * 10 + digit;
        k += 1;
    }
    assert(digits.take(b - from) =~= digits);
    if value >= COMMITTEE_SLOTS {
        Err(HostError::IndexOutOfRange { index: value })
    } else {
        Ok(value)
    }
}

/// The position of the first comma at or after `i`; the length of the text
/// if there is none.
pub open spec fn next_comma(s: Seq<char>, i: int) -> int
    decreases s.len() - i,
{
    if 0 <= i < s.len() && s[i] != ',' {
        next_comma(s, i + 1)
    } else {
        i
    }
}

/// The slots named by the entries from position `start` on, where entries
/// are what lies between commas and the one at `start` has the number
/// `entry`; the error of the first entry that names none.
pub open spec fn spec_entries(s: Seq<char>, start: int, entry: int) -> Result<
    Set<usize>,
    HostError,
>
    decreases s.len() - start,
{
    let end = next_comma(s, start);
    match spec_index(s.subrange(start, end), entry as usize) {
        Err(e) => Err(e),
        Ok(v) => if start <= end < s.len() {
            match spec_entries(s, end + 1, entry + 1) {
                Err(e) => Err(e),
                Ok(rest) => Ok(rest.insert(v)),
            }
        } else {
            Ok(set![v])
        },
    }
}

/// The set of signers that a text names: none if the text is blank, and
/// else the slots of its comma-separated entries.
pub open spec fn spec_signer_set(s: Seq<char>) -> Result<Set<usize>, HostError> {
    if trim(s).len() == 0 {
        Ok(Set::empty())
    } else {
        spec_entries(s, 0, 0)
    }
}

/// The slots found so far joined with what the rest of the text gives.
pub open spec fn joined(found: Set<usize>, rest: Result<Set<usize>, HostError>) -> Result<
    Set<usize>,
    HostError,
> {
    match rest {
        Err(e) => Err(e),
        Ok(more) => Ok(found.union(more)),
    }
}

/// Whether each element is less than the next.
pub open spec fn strictly_increasing(v: Seq<usize>) -> bool {
    forall|i: int, j: int| 0 <= i < j < v.len() ==> v[i] < v[j]
}

/// Finds the first comma at or after `from`.
pub fn find_comma(s: &[char], from: usize) -> (end: usize)
    requires
        from <= s@.len(),
    ensures
        from <= end <= s@.len(),
        end == next_comma(s@, from as int),
{
    let n = s.len();
    let mut end: usize = from;
    while end < n && s[end] != ','
        invariant
            from <= end <= n,
            n == s@.len(),
            next_comma(s@, end as int) == next_comma(s@, from as int),
        decreases n - end,
    {
        end += 1;
    }
    end
}

/// Lists the marked slots in increasing order.
pub fn marked_slots(marks: &[bool; 64]) -> (out: Vec<usize>)
    ensures
        strictly_increasing(out@),
        forall|x: usize| out@.contains(x) <==> (x < 64 && marks@[x as int]),
{
    let mut out: Vec<usize> = Vec::new();
    let mut v: usize = 0;
    while v < 64
        invariant
            v <= 64,
            strictly_increasing(out@),
            forall|i: int| 0 <= i < out@.len() ==> out@[i] < v,
            forall|x: usize| out@.contains(x) <==> (x < v && marks@[x as int]),
        decreases 64 - v,
    {
        if marks[v] {
            let ghost before = out@;
            out.push(v);
            assert forall|x: usize| out@.contains(x) <==> (x < v + 1 && marks@[x as int]) by {
                if out@.contains(x) {
                    let i = choose|i: int| 0 <= i < out@.len() && out@[i] == x;
                    if i < before.len() {
                        assert(before[i] == x);
                        assert(before.contains(x));
                    }
                }
                if x < v + 1 && marks@[x as int] {
                    if x == v {
                        assert(out@[before.len() as int] == x);
                    } else {
                        assert(before.contains(x));
                        let i = choose|i: int| 0 <= i < before.len() && before[i] == x;
                        assert(out@[i] == x);
                    }
                }
            }
        }
        v += 1;
    }
    out
}

/// Reads the list of signers: comma-separated slot numbers below 64, each
/// with optional blanks around it. A blank text names no signer. The result
/// holds each named slot once, in increasing order; the first entry that
/// names no slot ends the reading with its error.
pub fn parse_signer_indices(s: &str) -> (r: Result<Vec<usize>, HostError>)
    ensures
        match r {
            Ok(v) => strictly_increasing(v@) && spec_signer_set(s@) == Ok::<
                Set<usize>,
                HostError,
            >(v@.to_set()),
            Err(e) => spec_signer_set(s@) == Err::<Set<usize>, HostError>(e),
        },
{
    let chars = chars_of(s);
    let text = chars.as_slice();
    let n = text.len();
    let (a, b) = trim_bounds(text);
    if a == b {
        let out: Vec<usize> = Vec::new();
        assert(out@.to_set() =~= Set::<usize>::empty());
        return Ok(out);
    }
    let ghost total = spec_entries(s@, 0, 0);
    let ghost mut found: Set<usize> = Set::empty();
    let mut marks = [false; 64];
    let mut start: usize = 0;
    let mut entry: usize = 0;
    let mut done = false;
    assert(joined(found, spec_entries(s@, 0, 0)) == total) by {
        if total is Ok {
            assert(found.union(total->Ok_0) =~= total->Ok_0);
        }
    }
    while !done
        invariant
            text@ == s@,
            n == s@.len(),
            start <= n,
            entry <= start,
            trim(s@).len() != 0,
            total == spec_entries(s@, 0, 0),
            forall|x: usize| found.contains(x) <==> (x < 64 && marks@[x as int]),
            !done ==> joined(found, spec_entries(s@, start as int, entry as int)) == total,
            done ==> total == Ok::<Set<usize>, HostError>(found),
        decreases n - start + (if done { 0int } else { 1int }),
    {
        let end = find_comma(text, start);
        let part = slice_subrange(text, start, end);
        match parse_index(part, entry) {
            Err(e) => {
                return Err(e);
            },
            Ok(v) => {
                marks[v] = true;
                proof {
                    let before = found;
                    found = found.insert(v);
                    if end < n {
                        let rest = spec_entries(s@, end + 1, entry + 1);
                        if rest is Ok {
                            assert(before.union(rest->Ok_0.insert(v)) =~= found.union(
                                rest->Ok_0,
                            ));
                        }
                    } else {
                        assert(before.union(set![v]) =~= found);
                    }
                }
            },
        }
        if end == n {
            done = true;
        } else {
            start = end + 1;
            entry = entry + 1;
        }
    }
    let out = marked_slots(&marks);
    assert(out@.to_set() =~= found);
    Ok(out)
}

} // verus!
