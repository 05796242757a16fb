//! Reading text: decimal numbers, CSV records (through the `csv` crate),
//! regular-expression captures (through the `regex` crate), and the order of
//! strings.

use vstd::prelude::*;
use vstd::string::*;

verus! {

/// The records of a CSV text read with the given delimiter, header and
/// flexibility settings: each as its fields, or as none where the record could
/// not be read.
pub uninterp spec fn csv_records(data: Seq<u8>, delimiter: u8, has_headers: bool, flexible: bool) -> Seq<Option<Seq<Seq<char>>>>;

/// The capture groups (group 0 first) of the first match of a regular
/// expression in a text; none where there is no match or the expression does
/// not compile.
pub uninterp spec fn regex_captures(pattern: Seq<char>, text: Seq<char>) -> Option<Seq<Option<Seq<char>>>>;

/// Relies on `csv::ReaderBuilder` (delimiter, headers, flexibility) and
/// `csv::Reader::records`, which yields each record or the error that reading
/// it met.
#[verifier::external_body]
pub(crate) fn read_csv_records(data: &[u8], delimiter: u8, has_headers: bool, flexible: bool) -> (r: Vec<Option<Vec<String>>>)
    ensures
        r.deep_view() == csv_records(data@, delimiter, has_headers, flexible),
{
    csv::ReaderBuilder::new().delimiter(delimiter).has_headers(has_headers).flexible(flexible)
        .from_reader(data).records().map(|rec| rec.ok().map(|fields| fields.iter().map(String::from).collect()))
        .collect()
}

/// Relies on `regex::Regex::new` and `regex::Regex::captures`: the groups of
/// the first match, each as its text where it took part in the match.
#[verifier::external_body]
pub(crate) fn find_captures(pattern: &str, text: &str) -> (r: Option<Vec<Option<String>>>)
    ensures
        r.deep_view() == regex_captures(pattern@, text@),
{
    match regex::Regex::new(pattern) {
        Ok(re) => re.captures(text).map(|c| c.iter().map(|m| m.map(|m| m.as_str().to_string())).collect()),
        Err(_) => None,
    }
}

pub open spec fn is_digit(c: char) -> bool {
    '0' <= c && c <= '9'
}

/// The number that a sequence of decimal digits writes.
pub open spec fn digits_value(s: Seq<char>) -> int
    decreases s.len(),
{
    if s.len() == 0 {
        0
    } else {
        digits_value(s.drop_last()) * 10 + (s.last() as int - '0' as int)
    }
}

/// A text without its leading `+`, if it has one.
pub open spec fn unsigned_part(s: Seq<char>) -> Seq<char> {
    if s.len() > 0 && s[0] == '+' {
        s.drop_first()
    } else {
        s
    }
}

/// The number that a text writes in decimal: an optional `+`, then one or
/// more ASCII digits.
pub open spec fn decimal_value(s: Seq<char>) -> Option<int> {
    let d = unsigned_part(s);
    if d.len() > 0 && forall|i: int| 0 <= i < d.len() ==> is_digit(#[trigger] d[i]) {
        Some(digits_value(d))
    } else {
        None
    }
}

/// The number that `s` writes in decimal, when it is at most `max`.
pub open spec fn decimal_at_most(s: Seq<char>, max: int) -> Option<int> {
    match decimal_value(s) {
        Some(v) => if v <= max {
            Some(v)
        } else {
            None
        },
        None => None,
    }
}

/// Reads the number that `s` writes in decimal (an optional `+`, then ASCII
/// digits), when it is at most `max`.
pub fn parse_decimal(s: &str, max: u64) -> (r: Option<u64>)
    ensures
        match r {
            Some(v) => decimal_at_most(s@, max as int) == Some(v as int),
            None => decimal_at_most(s@, max as int) is None,
        },
{
    let n = s.unicode_len();
    let mut i: usize = 0;
    if n > 0 && s.get_char(0) == '+' {
        i = 1;
    }
    let start = i;
    let ghost d = s@.subrange(start as int, n as int);
    proof {
        if n > 0 && s@[0] == '+' {
            assert(d =~= s@.drop_first());
        } else {
            assert(d =~= s@);
        }
    }
    if start == n {
        return None;
    }
    let cap: u128 = max as u128 + 1;
    let mut acc: u128 = 0;
    while i < n
        invariant
            start <= i <= n,
            n == s@.len(),
            d == s@.subrange(start as int, n as int),
            d == unsigned_part(s@),
            cap == max + 1,
            forall|k: int| start <= k < i ==> is_digit(#[trigger] s@[k]),
            acc == (if digits_value(s@.subrange(start as int, i as int)) < cap {
                digits_value(s@.subrange(start as int, i as int))
            } else {
                cap as int
            }),
        decreases n - i,
    {
        let c = s.get_char(i);
        if !('0' <= c && c <= '9') {
            proof {
                assert(d[i - start] == s@[i as int]);
                assert(!is_digit(d[i - start]));
                assert(decimal_value(s@) is None);
            }
            return None;
        }
        let digit = (c as u32 - '0' as u32) as u128;
        proof {
            let p = s@.subrange(start as int, i as int);
            let q = s@.subrange(start as int, i + 1);
            assert(q.drop_last() =~= p);
            assert(digits_value(q) == digits_value(p) * 10 + digit);
            assert(digits_value(p) >= 0) by {
                lemma_digits_nonneg(p);
            }
        }
        if acc >= cap {
            proof {
                let p = s@.subrange(start as int, i as int);
                assert(digits_value(p) * 10 + digit >= cap) by (nonlinear_arith)
                    requires
                        digits_value(p) >= cap,
                        digit >= 0,
                        cap >= 1,
                ;
            }
        } else {
            acc = acc * 10 + digit;
            if acc >= cap {
                acc = cap;
            }
        }
        i += 1;
    }
    proof {
        assert(s@.subrange(start as int, n as int) == d);
        assert forall|k: int| 0 <= k < d.len() implies is_digit(#[trigger] d[k]) by {
            assert(d[k] == s@[k + start]);
        }
    }
    if acc < cap {
        Some(acc as u64)
    } else {
        None
    }
}

pub proof fn lemma_digits_nonneg(s: Seq<char>)
    requires
        forall|i: int| 0 <= i < s.len() ==> is_digit(#[trigger] s[i]),
    ensures
        digits_value(s) >= 0,
    decreases s.len(),
{
    if s.len() > 0 {
        assert forall|i: int| 0 <= i < s.drop_last().len() implies is_digit(#[trigger] s.drop_last()[i]) by {
            assert(s.drop_last()[i] == s[i]);
        }
        lemma_digits_nonneg(s.drop_last());
        assert(is_digit(s[s.len() - 1]));
    }
}

/// The first position at or after `k` where `t` holds `c`.
pub open spec fn find_char(t: Seq<char>, c: char, k: int) -> Option<int>
    decreases t.len() - k,
{
    if k < 0 || k >= t.len() {
        None
    } else if t[k] == c {
        Some(k)
    } else {
        find_char(t, c, k + 1)
    }
}

/// The first position where `s` holds `c`.
pub fn char_index(s: &str, c: char) -> (r: Option<usize>)
    ensures
        match r {
            Some(i) => find_char(s@, c, 0) == Some(i as int),
            None => find_char(s@, c, 0) is None,
        },
        r matches Some(i) ==> i < s@.len(),
{
    let n = s.unicode_len();
    let mut k: usize = 0;
    while k < n
        invariant
            k <= n == s@.len(),
            find_char(s@, c, 0) == find_char(s@, c, k as int),
        decreases n - k,
    {
        if s.get_char(k) == c {
            return Some(k);
        }
        k += 1;
    }
    None
}

/// What `f` gives for each readable record among the first `n` of `recs`,
/// in order.
pub open spec fn gather<T>(
    recs: Seq<Option<Seq<Seq<char>>>>,
    f: spec_fn(Seq<Seq<char>>) -> Seq<T>,
    n: int,
) -> Seq<T>
    decreases n,
{
    if n <= 0 {
        Seq::empty()
    } else {
        gather(recs, f, n - 1) + match recs[n - 1] {
            Some(fields) => f(fields),
            None => Seq::empty(),
        }
    }
}

/// A one-entry sequence for `Some`, an empty one for `None`.
pub open spec fn seq_of<T>(o: Option<T>) -> Seq<T> {
    match o {
        Some(x) => seq![x],
        None => Seq::empty(),
    }
}

/// What holds of everything that `f` gives holds of everything gathered.
pub proof fn lemma_gather_forall<T>(
    recs: Seq<Option<Seq<Seq<char>>>>,
    f: spec_fn(Seq<Seq<char>>) -> Seq<T>,
    n: int,
    p: spec_fn(T) -> bool,
)
    requires
        forall|fields: Seq<Seq<char>>, k: int| 0 <= k < f(fields).len() ==> #[trigger] p(#[trigger] f(fields)[k]),
    ensures
        forall|k: int| 0 <= k < gather(recs, f, n).len() ==> #[trigger] p(gather(recs, f, n)[k]),
    decreases n,
{
    if n > 0 {
        lemma_gather_forall(recs, f, n - 1, p);
        let prev = gather(recs, f, n - 1);
        let last = match recs[n - 1] {
            Some(fields) => f(fields),
            None => Seq::empty(),
        };
        assert(gather(recs, f, n) == prev + last);
        assert forall|k: int| 0 <= k < gather(recs, f, n).len() implies #[trigger] p(gather(recs, f, n)[k]) by {
            if k >= prev.len() {
                assert(gather(recs, f, n)[k] == last[k - prev.len()]);
                if let Some(fields) = recs[n - 1] {
                    assert(p(f(fields)[k - prev.len()]));
                }
            } else {
                assert(gather(recs, f, n)[k] == prev[k]);
            }
        }
    }
}

/// What holds of everything in `a` and in `b` holds of everything in `a + b`.
pub proof fn lemma_concat_forall<T>(a: Seq<T>, b: Seq<T>, p: spec_fn(T) -> bool)
    requires
        forall|k: int| 0 <= k < a.len() ==> #[trigger] p(a[k]),
        forall|k: int| 0 <= k < b.len() ==> #[trigger] p(b[k]),
    ensures
        forall|k: int| 0 <= k < (a + b).len() ==> #[trigger] p((a + b)[k]),
{
    assert forall|k: int| 0 <= k < (a + b).len() implies #[trigger] p((a + b)[k]) by {
        if k < a.len() {
            assert((a + b)[k] == a[k]);
        } else {
            assert((a + b)[k] == b[k - a.len()]);
        }
    }
}

/// The decimal digit `d`.
pub open spec fn digit_char(d: int) -> char {
    seq!['0', '1', '2', '3', '4', '5', '6', '7', '8', '9'][d]
}

/// The decimal text of `n`, without leading zeros.
pub open spec fn decimal_text(n: nat) -> Seq<char>
    decreases n,
{
    if n < 10 {
        seq![digit_char(n as int)]
    } else {
        decimal_text(n / 10) + seq![digit_char((n % 10) as int)]
    }
}

/// Appends the decimal text of `n` to `out`.
pub fn push_decimal(out: &mut String, n: u64)
    ensures
        final(out)@ == old(out)@ + decimal_text(n as nat),
    decreases n,
{
    if n >= 10 {
        push_decimal(out, n / 10);
    }
    let d = (n % 10) as usize;
    let digits = "0123456789";
    proof {
        reveal_strlit("0123456789");
        assert(digits@ =~= seq!['0', '1', '2', '3', '4', '5', '6', '7', '8', '9']);
    }
    let ghost before = out@;
    out.append(digits.substring_char(d, d + 1));
    proof {
        assert(digits@.subrange(d as int, d + 1) =~= seq![digit_char(d as int)]);
        if n >= 10 {
            assert(out@ =~= old(out)@ + decimal_text(n as nat));
        } else {
            assert(out@ =~= old(out)@ + decimal_text(n as nat));
        }
    }
}

} // verus!
