use vstd::prelude::*;

verus! {

// --- Character classes ---------------------------------------------------

pub open spec fn is_ascii_digit(b: u8) -> bool {
    48 <= b && b <= 57
}

pub open spec fn all_ascii_digits(s: Seq<u8>) -> bool {
    forall|i: int| 0 <= i < s.len() ==> is_ascii_digit(#[trigger] s[i])
}

/// Whitespace as the scanner treats it when trimming.
pub open spec fn is_space(b: u8) -> bool {
    b == 32 || b == 9 || b == 10 || b == 13 || b == 11 || b == 12
}

pub fn byte_is_space(b: u8) -> (r: bool)
    ensures
        r == is_space(b),
{
    b == 32 || b == 9 || b == 10 || b == 13 || b == 11 || b == 12
}

// --- Decimal numbers ------------------------------------------------------

/// Value of a run of ASCII digits, most significant digit first.
pub open spec fn dec_value(s: Seq<u8>) -> int
    decreases s.len(),
{
    if s.len() == 0 {
        0
    } else {
        dec_value(s.drop_last()) * 10 + (s.last() - 48)
    }
}

/// A decimal integer token as `i64::from_str` accepts it: an optional sign
/// followed by at least one digit.
pub open spec fn signed_dec_ok(s: Seq<u8>) -> bool {
    if s.len() > 0 && (s[0] == 43 || s[0] == 45) {
        s.len() > 1 && all_ascii_digits(s.subrange(1, s.len() as int))
    } else {
        s.len() > 0 && all_ascii_digits(s)
    }
}

pub open spec fn signed_dec_value(s: Seq<u8>) -> int {
    if s.len() > 0 && s[0] == 45 {
        -dec_value(s.subrange(1, s.len() as int))
    } else if s.len() > 0 && s[0] == 43 {
        dec_value(s.subrange(1, s.len() as int))
    } else {
        dec_value(s)
    }
}

pub proof fn lemma_dec_value_nonneg(s: Seq<u8>)
    requires
        all_ascii_digits(s),
    ensures
        dec_value(s) >= 0,
    decreases s.len(),
{
    if s.len() > 0 {
        assert(all_ascii_digits(s.drop_last())) by {
            assert(forall|i: int| 0 <= i < s.len() - 1 ==> #[trigger] s.drop_last()[i] == s[i]);
        }
        lemma_dec_value_nonneg(s.drop_last());
    }
}

pub proof fn lemma_dec_value_grows(s: Seq<u8>, n: int)
    requires
        all_ascii_digits(s),
        0 <= n <= s.len(),
    ensures
        dec_value(s) >= dec_value(s.subrange(0, n)),
    decreases s.len() - n,
{
    if n < s.len() {
        lemma_dec_value_grows(s, n + 1);
        let p = s.subrange(0, n + 1);
        assert(p.drop_last() =~= s.subrange(0, n));
        assert(all_ascii_digits(s.subrange(0, n))) by {
            assert(forall|i: int| 0 <= i < n ==> #[trigger] s.subrange(0, n)[i] == s[i]);
        }
        lemma_dec_value_nonneg(s.subrange(0, n));
        assert(dec_value(p) == dec_value(s.subrange(0, n)) * 10 + (s[n] - 48));
    } else {
        assert(s.subrange(0, n) =~= s);
    }
}

/// Parses the digit run `s[lo..hi]` as a non-negative decimal number,
/// reporting `None` exactly when a non-digit occurs or the value exceeds
/// `i64::MAX`.
fn parse_digits(s: &[u8], lo: usize, hi: usize) -> (r: Option<i64>)
    requires
        lo <= hi <= s@.len(),
    ensures
        match r {
            Some(v) => all_ascii_digits(s@.subrange(lo as int, hi as int)) && hi > lo
                && v == dec_value(s@.subrange(lo as int, hi as int)),
            None => !(all_ascii_digits(s@.subrange(lo as int, hi as int)) && hi > lo
                && dec_value(s@.subrange(lo as int, hi as int)) <= i64::MAX),
        },
{
    let ghost whole = s@.subrange(lo as int, hi as int);
    if lo == hi {
        return None;
    }
    let mut acc: i64 = 0;
    let mut i: usize = lo;
    while i < hi
        invariant
            lo <= i <= hi <= s@.len(),
            all_ascii_digits(s@.subrange(lo as int, i as int)),
            acc == dec_value(s@.subrange(lo as int, i as int)),
            0 <= acc <= i64::MAX,
            whole == s@.subrange(lo as int, hi as int),
        decreases hi - i,
    {
        let b: u8 = s[i];
        if !(48 <= b && b <= 57) {
            proof {
                assert(!is_ascii_digit(whole[i - lo]));
            }
            return None;
        }
        let d: i64 = (b - 48) as i64;
        proof {
            let p = s@.subrange(lo as int, i + 1 as int);
            assert(p.drop_last() =~= s@.subrange(lo as int, i as int));
        }
        if acc > (i64::MAX - d) / 10 {
            // The value of the digits seen so far already exceeds the
            // representable range, and further digits only enlarge it.
            proof {
                let p = s@.subrange(lo as int, i + 1 as int);
                assert(dec_value(p) == acc * 10 + d);
                if all_ascii_digits(whole) {
                    lemma_dec_value_grows(whole, i + 1 - lo);
                    assert(whole.subrange(0, i + 1 - lo) =~= p);
                }
            }
            return None;
        }
        acc = acc * 10 + d;
        i = i + 1;
        proof {
            assert(all_ascii_digits(s@.subrange(lo as int, i as int))) by {
                let q = s@.subrange(lo as int, i as int);
                assert(forall|j: int| 0 <= j < q.len() - 1 ==> #[trigger] q[j] == s@.subrange(
                    lo as int,
                    i - 1 as int,
                )[j]);
                assert(q[q.len() - 1] == b);
            }
        }
    }
    proof {
        assert(s@.subrange(lo as int, i as int) =~= whole);
    }
    Some(acc)
}

/// Parses a whole byte slice as `i64::from_str` would: optional `+`/`-`
/// sign, then one or more decimal digits, value within `i64` range.
pub fn parse_i64(s: &[u8]) -> (r: Option<i64>)
    ensures
        match r {
            Some(v) => signed_dec_ok(s@) && v == signed_dec_value(s@) && i64::MIN
                <= signed_dec_value(s@) <= i64::MAX,
            None => !(signed_dec_ok(s@) && i64::MIN <= signed_dec_value(s@) <= i64::MAX),
        },
{
    if s.len() == 0 {
        return None;
    }
    let b0: u8 = s[0];
    if b0 == 45 {
        // negative: the twin scan keeps the accumulator negative, so
        // the full range down to i64::MIN is representable throughout.
        parse_digits_neg(s, 1, s.len())
    } else if b0 == 43 {
        parse_digits(s, 1, s.len())
    } else {
        let r = parse_digits(s, 0, s.len());
        proof {
            assert(s@.subrange(0, s@.len() as int) =~= s@);
        }
        r
    }
}

/// Negative-branch twin of `parse_digits`: parses `-` + digits with the
/// accumulator kept negative so that `i64::MIN` itself is accepted.
fn parse_digits_neg(s: &[u8], lo: usize, hi: usize) -> (r: Option<i64>)
    requires
        1 <= lo <= hi <= s@.len(),
    ensures
        match r {
            Some(v) => all_ascii_digits(s@.subrange(lo as int, hi as int)) && hi > lo
                && v == -dec_value(s@.subrange(lo as int, hi as int)),
            None => !(all_ascii_digits(s@.subrange(lo as int, hi as int)) && hi > lo
                && -dec_value(s@.subrange(lo as int, hi as int)) >= i64::MIN),
        },
{
    let ghost whole = s@.subrange(lo as int, hi as int);
    if lo == hi {
        return None;
    }
    let mut acc: i64 = 0;
    let mut i: usize = lo;
    while i < hi
        invariant
            lo <= i <= hi <= s@.len(),
            all_ascii_digits(s@.subrange(lo as int, i as int)),
            acc == -dec_value(s@.subrange(lo as int, i as int)),
            i64::MIN <= acc <= 0,
            whole == s@.subrange(lo as int, hi as int),
        decreases hi - i,
    {
        let b: u8 = s[i];
        if !(48 <= b && b <= 57) {
            proof {
                assert(!is_ascii_digit(whole[i - lo]));
            }
            return None;
        }
        let d: i64 = (b - 48) as i64;
        proof {
            let p = s@.subrange(lo as int, i + 1 as int);
            assert(p.drop_last() =~= s@.subrange(lo as int, i as int));
        }
        if acc < (i64::MIN + d) / 10 {
            proof {
                let p = s@.subrange(lo as int, i + 1 as int);
                assert(dec_value(p) == -acc * 10 + d);
                if all_ascii_digits(whole) {
                    lemma_dec_value_grows(whole, i + 1 - lo);
                    assert(whole.subrange(0, i + 1 - lo) =~= p);
                }
            }
            return None;
        }
        acc = acc * 10 - d;
        i = i + 1;
        proof {
            assert(all_ascii_digits(s@.subrange(lo as int, i as int))) by {
                let q = s@.subrange(lo as int, i as int);
                assert(forall|j: int| 0 <= j < q.len() - 1 ==> #[trigger] q[j] == s@.subrange(
                    lo as int,
                    i - 1 as int,
                )[j]);
                assert(q[q.len() - 1] == b);
            }
        }
    }
    proof {
        assert(s@.subrange(lo as int, i as int) =~= whole);
    }
    Some(acc)
}

/// Parses a whole byte slice as `i32::from_str` would.
pub fn parse_i32(s: &[u8]) -> (r: Option<i32>)
    ensures
        match r {
            Some(v) => signed_dec_ok(s@) && v == signed_dec_value(s@) && i32::MIN
                <= signed_dec_value(s@) <= i32::MAX,
            None => !(signed_dec_ok(s@) && i32::MIN <= signed_dec_value(s@) <= i32::MAX),
        },
{
    match parse_i64(s) {
        Some(v) => {
            if i32::MIN as i64 <= v && v <= i32::MAX as i64 {
                Some(v as i32)
            } else {
                None
            }
        },
        None => None,
    }
}

// --- Searching ------------------------------------------------------------

/// Index of the first occurrence of `b` in `s` at or after `i`.
pub open spec fn find_byte_from(s: Seq<u8>, i: int, b: u8) -> Option<int>
    decreases s.len() - i,
{
    if i < 0 || i >= s.len() {
        None
    } else if s[i] == b {
        Some(i)
    } else {
        find_byte_from(s, i + 1, b)
    }
}

pub fn find_byte(s: &[u8], from: usize, b: u8) -> (r: Option<usize>)
    requires
        from <= s@.len(),
    ensures
        match r {
            Some(j) => find_byte_from(s@, from as int, b) == Some(j as int) && from <= j
                < s@.len() && s@[j as int] == b,
            None => find_byte_from(s@, from as int, b) is None,
        },
{
    let mut i: usize = from;
    while i < s.len()
        invariant
            from <= i <= s@.len(),
            find_byte_from(s@, from as int, b) == find_byte_from(s@, i as int, b),
        decreases s@.len() - i,
    {
        if s[i] == b {
            return Some(i);
        }
        i = i + 1;
    }
    None
}

/// When nothing before `j` matches and `j` does, the search lands on `j`.
pub proof fn lemma_find_byte_lands(s: Seq<u8>, i: int, j: int, b: u8)
    requires
        0 <= i <= j < s.len(),
        forall|m: int| i <= m < j ==> s[m] != b,
        s[j] == b,
    ensures
        find_byte_from(s, i, b) == Some(j),
    decreases j - i,
{
    if i < j {
        lemma_find_byte_lands(s, i + 1, j, b);
    }
}

/// Whether `pat` occurs in `s` starting at index `i`.
pub open spec fn match_at(s: Seq<u8>, pat: Seq<u8>, i: int) -> bool {
    0 <= i && i + pat.len() <= s.len() && s.subrange(i, i + pat.len()) == pat
}

pub fn starts_with_at(s: &[u8], from: usize, pat: &[u8]) -> (r: bool)
    requires
        from <= s@.len(),
    ensures
        r == match_at(s@, pat@, from as int),
{
    if s.len() - from < pat.len() {
        return false;
    }
    let mut k: usize = 0;
    while k < pat.len()
        invariant
            from + pat@.len() <= s@.len(),
            s@.len() <= usize::MAX,
            0 <= k <= pat@.len(),
            forall|j: int| 0 <= j < k ==> s@[from + j] == pat@[j],
        decreases pat@.len() - k,
    {
        if s[from + k] != pat[k] {
            proof {
                assert(s@.subrange(from as int, from + pat@.len())[k as int] != pat@[k as int]);
            }
            return false;
        }
        k = k + 1;
    }
    proof {
        assert(s@.subrange(from as int, from + pat@.len()) =~= pat@);
    }
    true
}

/// Index of the last occurrence of `pat` in `s` beginning at or before `i`.
pub open spec fn rfind_from(s: Seq<u8>, pat: Seq<u8>, i: int) -> Option<int>
    decreases i + 1,
{
    if i < 0 {
        None
    } else if match_at(s, pat, i) {
        Some(i)
    } else {
        rfind_from(s, pat, i - 1)
    }
}

/// Index of the last occurrence of `pat` anywhere in `s`.
pub open spec fn rfind(s: Seq<u8>, pat: Seq<u8>) -> Option<int> {
    rfind_from(s, pat, s.len() - pat.len())
}

pub fn rfind_pat(s: &[u8], pat: &[u8]) -> (r: Option<usize>)
    ensures
        match r {
            Some(j) => rfind(s@, pat@) == Some(j as int),
            None => rfind(s@, pat@) is None,
        },
{
    if pat.len() > s.len() {
        proof {
            lemma_rfind_none_before(s@, pat@, s@.len() - pat@.len());
        }
        return None;
    }
    let mut i: usize = s.len() - pat.len();
    loop
        invariant
            0 <= i <= s@.len() - pat@.len(),
            rfind(s@, pat@) == rfind_from(s@, pat@, i as int),
        decreases i + 1,
    {
        if starts_with_at(s, i, pat) {
            return Some(i);
        }
        if i == 0 {
            proof {
                lemma_rfind_none_before(s@, pat@, -1);
            }
            return None;
        }
        i = i - 1;
    }
}

proof fn lemma_rfind_none_before(s: Seq<u8>, pat: Seq<u8>, i: int)
    requires
        i < 0,
    ensures
        rfind_from(s, pat, i) is None,
{
}

// --- Trimming -------------------------------------------------------------

/// First index at or after `i` that does not hold whitespace.
pub open spec fn skip_spaces(s: Seq<u8>, i: int) -> int
    decreases s.len() - i,
{
    if i < 0 || i >= s.len() {
        i
    } else if is_space(s[i]) {
        skip_spaces(s, i + 1)
    } else {
        i
    }
}

pub fn advance_spaces(s: &[u8], from: usize) -> (r: usize)
    requires
        from <= s@.len(),
    ensures
        r == skip_spaces(s@, from as int),
        from <= r <= s@.len(),
{
    let mut i: usize = from;
    while i < s.len() && byte_is_space(s[i])
        invariant
            from <= i <= s@.len(),
            skip_spaces(s@, from as int) == skip_spaces(s@, i as int),
        decreases s@.len() - i,
    {
        i = i + 1;
    }
    i
}

/// Last index at or before `i` (exclusive bound) such that
/// `s[.. r]` ends with no whitespace.
pub open spec fn trim_end_idx(s: Seq<u8>, i: int) -> int
    decreases i,
{
    if i <= 0 {
        0
    } else if is_space(s[i - 1]) {
        trim_end_idx(s, i - 1)
    } else {
        i
    }
}

pub fn retreat_spaces(s: &[u8], upto: usize) -> (r: usize)
    requires
        upto <= s@.len(),
    ensures
        r == trim_end_idx(s@, upto as int),
        r <= upto,
{
    let mut i: usize = upto;
    while i > 0 && byte_is_space(s[i - 1])
        invariant
            i <= upto <= s@.len(),
            trim_end_idx(s@, upto as int) == trim_end_idx(s@, i as int),
        decreases i,
    {
        i = i - 1;
    }
    i
}

/// First index at or after `i`, but below `hi`, that does not hold
/// whitespace.
pub open spec fn skip_spaces_to(s: Seq<u8>, i: int, hi: int) -> int
    decreases hi - i,
{
    if i < 0 || i >= hi || i >= s.len() {
        i
    } else if is_space(s[i]) {
        skip_spaces_to(s, i + 1, hi)
    } else {
        i
    }
}

pub fn advance_spaces_to(s: &[u8], from: usize, hi: usize) -> (r: usize)
    requires
        from <= hi <= s@.len(),
    ensures
        r == skip_spaces_to(s@, from as int, hi as int),
        from <= r <= hi,
{
    let mut i: usize = from;
    while i < hi && byte_is_space(s[i])
        invariant
            from <= i <= hi <= s@.len(),
            skip_spaces_to(s@, from as int, hi as int) == skip_spaces_to(s@, i as int, hi as int),
        decreases hi - i,
    {
        i = i + 1;
    }
    i
}

/// Retreats the exclusive bound `i` over trailing whitespace, but not
/// below `lo`.
pub open spec fn trim_end_from(s: Seq<u8>, lo: int, i: int) -> int
    decreases i,
{
    if i <= lo || i < 1 || i > s.len() {
        i
    } else if is_space(s[i - 1]) {
        trim_end_from(s, lo, i - 1)
    } else {
        i
    }
}

pub fn retreat_spaces_from(s: &[u8], lo: usize, upto: usize) -> (r: usize)
    requires
        lo <= upto <= s@.len(),
    ensures
        r == trim_end_from(s@, lo as int, upto as int),
        lo <= r <= upto,
{
    let mut i: usize = upto;
    while i > lo && byte_is_space(s[i - 1])
        invariant
            lo <= i <= upto <= s@.len(),
            trim_end_from(s@, lo as int, upto as int) == trim_end_from(s@, lo as int, i as int),
        decreases i,
    {
        i = i - 1;
    }
    i
}

// --- Powers of ten --------------------------------------------------------

pub open spec fn pow10(k: nat) -> int
    decreases k,
{
    if k == 0 {
        1
    } else {
        10 * pow10((k - 1) as nat)
    }
}

pub fn pow10_u32(k: u32) -> (r: u32)
    requires
        k <= 9,
    ensures
        r == pow10(k as nat),
{
    let mut r: u32 = 1;
    let mut j: u32 = 0;
    while j < k
        invariant
            j <= k <= 9,
            r == pow10(j as nat),
        decreases k - j,
    {
        proof {
            lemma_pow10_values();
            lemma_pow10_mono(j as nat, 8);
        }
        r = r * 10;
        j = j + 1;
    }
    r
}

pub proof fn lemma_pow10_values()
    ensures
        pow10(0) == 1,
        pow10(1) == 10,
        pow10(2) == 100,
        pow10(3) == 1000,
        pow10(4) == 10000,
        pow10(5) == 100000,
        pow10(6) == 1000000,
        pow10(7) == 10000000,
        pow10(8) == 100000000,
        pow10(9) == 1000000000,
{
    assert(pow10(0) == 1);
    assert(pow10(1) == 10);
    assert(pow10(2) == 100);
    assert(pow10(3) == 1000);
    assert(pow10(4) == 10000);
    assert(pow10(5) == 100000);
    assert(pow10(6) == 1000000);
    assert(pow10(7) == 10000000);
    assert(pow10(8) == 100000000);
    assert(pow10(9) == 1000000000);
}

pub proof fn lemma_pow10_add(a: nat, b: nat)
    ensures
        pow10((a + b) as nat) == pow10(a) * pow10(b),
    decreases a,
{
    if a > 0 {
        lemma_pow10_add((a - 1) as nat, b);
        assert(10 * (pow10((a - 1) as nat) * pow10(b)) == (10 * pow10((a - 1) as nat)) * pow10(
            b,
        )) by (nonlinear_arith);
    }
}

pub proof fn lemma_pow10_mono(a: nat, b: nat)
    requires
        a <= b,
    ensures
        1 <= pow10(a) <= pow10(b),
    decreases b,
{
    if a < b {
        lemma_pow10_mono(a, (b - 1) as nat);
    } else if b == 0 {
    } else {
        lemma_pow10_mono(0, (b - 1) as nat);
    }
}

/// A run of `k` digits is worth less than `pow10(k)`.
pub proof fn lemma_dec_value_bound(s: Seq<u8>)
    requires
        all_ascii_digits(s),
    ensures
        0 <= dec_value(s) < pow10(s.len()),
    decreases s.len(),
{
    if s.len() > 0 {
        assert(all_ascii_digits(s.drop_last())) by {
            assert(forall|i: int| 0 <= i < s.len() - 1 ==> #[trigger] s.drop_last()[i] == s[i]);
        }
        lemma_dec_value_bound(s.drop_last());
    }
}

/// Index of the last occurrence of `b` at or before `i`.
pub open spec fn rfind_byte_from(s: Seq<u8>, i: int, b: u8) -> Option<int>
    decreases i + 1,
{
    if i < 0 || i >= s.len() {
        None
    } else if s[i] == b {
        Some(i)
    } else {
        rfind_byte_from(s, i - 1, b)
    }
}

pub fn rfind_byte(s: &[u8], b: u8) -> (r: Option<usize>)
    ensures
        match r {
            Some(j) => rfind_byte_from(s@, s@.len() - 1, b) == Some(j as int) && j < s@.len()
                && s@[j as int] == b,
            None => rfind_byte_from(s@, s@.len() - 1, b) is None,
        },
{
    let mut i: usize = s.len();
    while i > 0
        invariant
            i <= s@.len(),
            rfind_byte_from(s@, s@.len() - 1, b) == rfind_byte_from(s@, i - 1, b),
        decreases i,
    {
        if s[i - 1] == b {
            return Some(i - 1);
        }
        i = i - 1;
    }
    None
}

/// Whether two byte slices hold the same bytes.
pub fn bytes_eq(a: &[u8], b: &[u8]) -> (r: bool)
    ensures
        r == (a@ == b@),
{
    if a.len() != b.len() {
        return false;
    }
    let mut i: usize = 0;
    while i < a.len()
        invariant
            i <= a@.len() == b@.len(),
            forall|j: int| 0 <= j < i ==> a@[j] == b@[j],
        decreases a@.len() - i,
    {
        if a[i] != b[i] {
            return false;
        }
        i = i + 1;
    }
    proof {
        assert(a@ =~= b@);
    }
    true
}

/// Prepending a digit scales it by the weight of the following run.
pub proof fn lemma_dec_value_prepend(d: u8, t: Seq<u8>)
    ensures
        dec_value(seq![d] + t) == (d - 48) * pow10(t.len()) + dec_value(t),
    decreases t.len(),
{
    if t.len() == 0 {
        assert(seq![d] + t =~= seq![d]);
        assert((seq![d]).drop_last() =~= Seq::<u8>::empty());
        assert(dec_value(Seq::<u8>::empty()) == 0);
        assert(dec_value(seq![d]) == d - 48);
        assert(dec_value(t) == 0);
        assert(pow10(0) == 1);
    } else {
        lemma_dec_value_prepend(d, t.drop_last());
        let u = seq![d] + t;
        assert(u.drop_last() =~= seq![d] + t.drop_last());
        assert(u.last() == t.last());
        assert(dec_value(u) == dec_value(seq![d] + t.drop_last()) * 10 + (t.last() - 48));
        let w = pow10((t.len() - 1) as nat);
        assert(((d - 48) * w + dec_value(t.drop_last())) * 10 == (d - 48) * (10 * w) + dec_value(
            t.drop_last(),
        ) * 10) by (nonlinear_arith);
        assert(pow10(t.len()) == 10 * w);
        assert((d - 48) * (10 * w) == (d - 48) * pow10(t.len()));
        assert(dec_value(t) == dec_value(t.drop_last()) * 10 + (t.last() - 48));
    }
}

/// Renders a signed 32-bit value in decimal, exactly as read back by the
/// signed-decimal model.
pub fn format_i32(n: i32) -> (r: Vec<u8>)
    ensures
        signed_dec_ok(r@),
        signed_dec_value(r@) == n,
{
    let magnitude: u64 = if n < 0 {
        (-(n as i64)) as u64
    } else {
        n as u64
    };
    let mut revd: Vec<u8> = Vec::new();
    if magnitude == 0 {
        revd.push(48);
        proof {
            assert(revd@.reverse() =~= seq![48u8]);
            assert((seq![48u8]).drop_last() =~= Seq::<u8>::empty());
            assert(dec_value(Seq::<u8>::empty()) == 0);
            assert(dec_value(revd@.reverse()) == 0);
            assert(all_ascii_digits(revd@.reverse()));
        }
    } else {
        let mut m: u64 = magnitude;
        while m > 0
            invariant
                all_ascii_digits(revd@.reverse()),
                magnitude == dec_value(revd@.reverse()) + m * pow10(revd@.len() as nat),
                revd@.len() == 0 ==> m == magnitude,
                magnitude > 0,
            decreases m,
        {
            let d: u8 = (m % 10) as u8 + 48;
            let ghost old_rev = revd@.reverse();
            let ghost old_m = m as int;
            revd.push(d);
            m = m / 10;
            proof {
                assert(revd@.reverse() =~= seq![d] + old_rev);
                lemma_dec_value_prepend(d, old_rev);
                assert(forall|j: int| 0 <= j < old_rev.len() ==> revd@.reverse()[j + 1]
                    == #[trigger] old_rev[j]);
                assert(all_ascii_digits(revd@.reverse()));
                assert(old_m == 10 * (m as int) + (d - 48));
                let w = pow10(old_rev.len());
                assert((d - 48) * w + (m as int) * (10 * w) == old_m * w) by (nonlinear_arith)
                    requires
                        old_m == 10 * (m as int) + (d - 48),
                {}
                assert(pow10(revd@.len() as nat) == 10 * w);
                assert((m as int) * pow10(revd@.len() as nat) == (m as int) * (10 * w));
                assert(dec_value(revd@.reverse()) == (d - 48) * w + dec_value(old_rev));
            }
        }
        proof {
            assert(magnitude == dec_value(revd@.reverse()));
            assert(revd@.len() > 0);
        }
    }
    let mut out: Vec<u8> = Vec::new();
    if n < 0 {
        out.push(45);
    }
    let ghost sign: Seq<u8> = out@;
    let mut i: usize = revd.len();
    while i > 0
        invariant
            i <= revd@.len(),
            out@ == sign + revd@.reverse().subrange(0, revd@.len() - i),
            sign == if n < 0 {
                seq![45u8]
            } else {
                Seq::<u8>::empty()
            },
        decreases i,
    {
        let b: u8 = revd[i - 1];
        out.push(b);
        proof {
            assert(revd@.reverse()[revd@.len() - i] == revd@[i - 1]);
            assert(out@ =~= sign + revd@.reverse().subrange(0, revd@.len() - (i - 1)));
        }
        i = i - 1;
    }
    proof {
        let rev = revd@.reverse();
        assert(rev.subrange(0, revd@.len() as int) =~= rev);
        lemma_dec_value_nonneg(rev);
        if n < 0 {
            assert(out@ =~= seq![45u8] + rev);
            assert(out@[0] == 45);
            assert(out@.subrange(1, out@.len() as int) =~= rev);
            assert(signed_dec_ok(out@));
            assert(signed_dec_value(out@) == -dec_value(rev));
            assert(magnitude == -(n as int));
        } else {
            assert(out@ =~= rev);
            assert(out@[0] != 45 && out@[0] != 43);
            assert(signed_dec_ok(out@));
            assert(signed_dec_value(out@) == dec_value(rev));
            assert(magnitude == n as int);
        }
    }
    out
}

/// Copies `s[lo..hi]` into a fresh vector.
pub fn copy_range(s: &[u8], lo: usize, hi: usize) -> (r: Vec<u8>)
    requires
        lo <= hi <= s@.len(),
    ensures
        r@ == s@.subrange(lo as int, hi as int),
{
    let mut out: Vec<u8> = Vec::new();
    let mut i: usize = lo;
    while i < hi
        invariant
            lo <= i <= hi <= s@.len(),
            out@ == s@.subrange(lo as int, i as int),
        decreases hi - i,
    {
        out.push(s[i]);
        proof {
            assert(out@ =~= s@.subrange(lo as int, i + 1 as int));
        }
        i = i + 1;
    }
    out
}

} // verus!
