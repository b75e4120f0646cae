//! The small grammars of the command line and of query strings: unsigned
//! integers, fixed-point percents and human durations, read from UTF-8
//! bytes.

use vstd::prelude::*;

verus! {

pub open spec fn is_digit(b: u8) -> bool {
    48 <= b <= 57
}

pub open spec fn all_digits(t: Seq<u8>) -> bool {
    forall|i: int| 0 <= i < t.len() ==> is_digit(#[trigger] t[i])
}

/// Some digit is not `0`.
pub open spec fn has_nonzero(t: Seq<u8>) -> bool {
    exists|i: int| 0 <= i < t.len() && t[i] != 48
}

/// The decimal value of a string of digits.
pub open spec fn digits_value(t: Seq<u8>) -> nat
    decreases t.len(),
{
    if t.len() == 0 {
        0
    } else {
        digits_value(t.drop_last()) * 10 + (t.last() - 48) as nat
    }
}

/// The first index at or after `i` that does not hold a digit.
pub open spec fn digits_end(t: Seq<u8>, i: int) -> int
    decreases t.len() - i,
{
    if 0 <= i < t.len() && is_digit(t[i]) {
        digits_end(t, i + 1)
    } else {
        i
    }
}

/// `t` without a leading `+`.
pub open spec fn unsigned_digits(t: Seq<u8>) -> Seq<u8> {
    if t.len() > 0 && t[0] == 43 {
        t.skip(1)
    } else {
        t
    }
}

/// What `u64::from_str` accepts: an optional `+`, then one or more digits
/// whose value fits.
pub open spec fn u64_text(t: Seq<u8>) -> Option<u64> {
    let d = unsigned_digits(t);
    if d.len() > 0 && all_digits(d) && digits_value(d) <= u64::MAX {
        Some(digits_value(d) as u64)
    } else {
        None
    }
}

/// A prefix of a digit string is worth no more than the whole.
pub proof fn lemma_digits_prefix(t: Seq<u8>, i: int)
    requires
        all_digits(t),
        0 <= i <= t.len(),
    ensures
        digits_value(t.take(i)) <= digits_value(t),
    decreases t.len(),
{
    if i == t.len() {
        assert(t.take(i) =~= t);
    } else {
        let u = t.drop_last();
        assert(u.take(i) =~= t.take(i));
        lemma_digits_prefix(u, i);
    }
}

/// One more digit: ten times the value, plus the digit.
pub proof fn lemma_digits_push(t: Seq<u8>, c: u8)
    ensures
        digits_value(t.push(c)) == digits_value(t) * 10 + (c - 48) as nat,
{
    assert(t.push(c).drop_last() =~= t);
}

/// The digits from `i` up to `digits_end(t, i)` are digits, and the one
/// there, if any, is not.
pub proof fn lemma_digits_end(t: Seq<u8>, i: int)
    requires
        0 <= i <= t.len(),
    ensures
        i <= digits_end(t, i) <= t.len(),
        forall|k: int| i <= k < digits_end(t, i) ==> is_digit(#[trigger] t[k]),
        digits_end(t, i) < t.len() ==> !is_digit(t[digits_end(t, i)]),
    decreases t.len() - i,
{
    if i < t.len() && is_digit(t[i]) {
        lemma_digits_end(t, i + 1);
    }
}

/// Reads an unsigned decimal integer as `u64::from_str` does, from
/// `b[lo..hi]`.
pub fn parse_u64(b: &[u8], lo: usize, hi: usize) -> (r: Option<u64>)
    requires
        lo <= hi <= b@.len(),
    ensures
        r == u64_text(b@.subrange(lo as int, hi as int)),
{
    let ghost t = b@.subrange(lo as int, hi as int);
    let mut i = lo;
    if i < hi && b[i] == 43 {
        i += 1;
    }
    let ghost d = b@.subrange(i as int, hi as int);
    proof {
        assert(unsigned_digits(t) =~= d);
    }
    if i == hi {
        return None;
    }
    let start = i;
    let mut acc: u64 = 0;
    while i < hi
        invariant
            lo <= start <= i <= hi <= b@.len(),
            start < hi,
            d == b@.subrange(start as int, hi as int),
            t == b@.subrange(lo as int, hi as int),
            unsigned_digits(t) == d,
            all_digits(b@.subrange(start as int, i as int)),
            acc == digits_value(b@.subrange(start as int, i as int)),
        decreases hi - i,
    {
        let c = b[i];
        if c < 48 || c > 57 {
            proof {
                assert(d[i - start] == c);
                assert(!is_digit(d[i - start]));
                assert(!all_digits(d));
            }
            return None;
        }
        proof {
            lemma_digits_push(b@.subrange(start as int, i as int), c);
            assert(b@.subrange(start as int, i + 1) =~= b@.subrange(start as int, i as int).push(c));
        }
        let next = match acc.checked_mul(10) {
            Some(m) => m.checked_add((c - 48) as u64),
            None => None,
        };
        match next {
            Some(n) => {
                acc = n;
            },
            None => {
                proof {
                    assert(acc * 10 + (c - 48) > u64::MAX);
                    if all_digits(d) {
                        assert(d.take(i + 1 - start) =~= b@.subrange(start as int, i + 1));
                        lemma_digits_prefix(d, i + 1 - start);
                    }
                }
                return None;
            },
        }
        i += 1;
    }
    proof {
        assert(b@.subrange(start as int, i as int) =~= d);
    }
    Some(acc)
}

/// `10^(4 - n)` for the `n <= 4` fraction digits given.
pub open spec fn fraction_scale(n: nat) -> nat {
    if n == 0 {
        10000
    } else if n == 1 {
        1000
    } else if n == 2 {
        100
    } else if n == 3 {
        10
    } else {
        1
    }
}

/// The first four fraction digits, in ten-thousandths.
pub open spec fn fraction_value(f: Seq<u8>) -> nat {
    if f.len() >= 4 {
        digits_value(f.take(4))
    } else {
        digits_value(f) * fraction_scale(f.len())
    }
}

/// The marker for a percent outside `[0, 100]`.
pub const PERCENT_OUT_OF_RANGE: u64 = 1_000_001;

/// A percent in decimal notation: an optional sign, digits, and an optional
/// `.` with more digits, with at least one digit in all. `None` when the
/// text is not such a number; otherwise the number in millionths of the
/// whole (ten-thousandths of a percent, rounded down), or
/// `PERCENT_OUT_OF_RANGE` when it lies outside `[0, 100]`.
pub open spec fn percent_text(t: Seq<u8>) -> Option<u64> {
    let neg = t.len() > 0 && t[0] == 45;
    let body = if t.len() > 0 && (t[0] == 43 || t[0] == 45) {
        t.skip(1)
    } else {
        t
    };
    let a = digits_end(body, 0);
    let whole = body.take(a);
    let frac = if a < body.len() {
        body.skip(a + 1)
    } else {
        Seq::empty()
    };
    if (a < body.len() && body[a] != 46) || !all_digits(frac) || whole.len() + frac.len() == 0 {
        None
    } else if digits_value(whole) > 100 || (digits_value(whole) == 100 && has_nonzero(frac)) || (neg
        && (digits_value(whole) > 0 || has_nonzero(frac))) {
        Some(PERCENT_OUT_OF_RANGE)
    } else {
        Some((digits_value(whole) * 10000 + fraction_value(frac)) as u64)
    }
}

/// `digits_end` is the end of a run of digits.
pub proof fn lemma_digits_end_at(t: Seq<u8>, i: int, k: int)
    requires
        0 <= i <= k <= t.len(),
        forall|j: int| i <= j < k ==> is_digit(#[trigger] t[j]),
        k == t.len() || !is_digit(t[k]),
    ensures
        digits_end(t, i) == k,
    decreases k - i,
{
    if i < k {
        lemma_digits_end_at(t, i + 1, k);
    }
}

/// Reads a percent as `percent_text` describes, from `b[lo..hi]`.
pub fn parse_percent(b: &[u8], lo: usize, hi: usize) -> (r: Option<u64>)
    requires
        lo <= hi <= b@.len(),
    ensures
        r == percent_text(b@.subrange(lo as int, hi as int)),
{
    let ghost t = b@.subrange(lo as int, hi as int);
    let neg = lo < hi && b[lo] == 45;
    let mut i = lo;
    if i < hi && (b[i] == 43 || b[i] == 45) {
        i += 1;
    }
    let bs = i;
    let ghost body = b@.subrange(bs as int, hi as int);
    proof {
        assert(body =~= (if t.len() > 0 && (t[0] == 43 || t[0] == 45) {
            t.skip(1)
        } else {
            t
        }));
    }
    let mut whole: u64 = 0;
    while i < hi && 48 <= b[i] && b[i] <= 57
        invariant
            lo <= bs <= i <= hi <= b@.len(),
            body == b@.subrange(bs as int, hi as int),
            forall|j: int| 0 <= j < i - bs ==> is_digit(#[trigger] body[j]),
            whole <= 101,
            whole == 101 <==> digits_value(body.take(i - bs)) > 100,
            whole <= 100 ==> whole == digits_value(body.take(i - bs)),
        decreases hi - i,
    {
        let c = b[i];
        proof {
            lemma_digits_push(body.take(i - bs), c);
            assert(body.take(i + 1 - bs) =~= body.take(i - bs).push(c));
        }
        if whole <= 100 {
            whole = whole * 10 + (c - 48) as u64;
            if whole > 100 {
                whole = 101;
            }
        }
        i += 1;
    }
    let we = i;
    proof {
        lemma_digits_end_at(body, 0, we - bs);
        assert(body.take(we - bs) =~= body.take(digits_end(body, 0)));
    }
    let mut frac: u64 = 0;
    let mut taken: usize = 0;
    let mut nonzero = false;
    let mut fs = i;
    if i < hi {
        if b[i] != 46 {
            return None;
        }
        i += 1;
        fs = i;
        let ghost f = b@.subrange(fs as int, hi as int);
        proof {
            assert(f =~= body.skip(we - bs + 1));
        }
        while i < hi
            invariant
                we < fs <= i <= hi <= b@.len(),
                f == b@.subrange(fs as int, hi as int),
                all_digits(f.take(i - fs)),
                taken <= 4,
                taken == (if i - fs < 4 { i - fs } else { 4 }),
                frac == digits_value(f.take(taken as int)),
                taken == 0 ==> frac == 0,
                taken == 1 ==> frac < 10,
                taken == 2 ==> frac < 100,
                taken == 3 ==> frac < 1000,
                taken == 4 ==> frac < 10000,
                f == body.skip(we - bs + 1),
                digits_end(body, 0) == we - bs,
                bs <= we,
                body == b@.subrange(bs as int, hi as int),
                t == b@.subrange(lo as int, hi as int),
                body == (if t.len() > 0 && (t[0] == 43 || t[0] == 45) {
                    t.skip(1)
                } else {
                    t
                }),
                nonzero == has_nonzero(f.take(i - fs)),
            decreases hi - i,
        {
            let c = b[i];
            if c < 48 || c > 57 {
                proof {
                    assert(!is_digit(f[i - fs]));
                    assert(!all_digits(f));
                }
                return None;
            }
            proof {
                assert(f.take(i + 1 - fs) =~= f.take(i - fs).push(c));
                if taken < 4 {
                    lemma_digits_push(f.take(taken as int), c);
                    assert(f.take(taken + 1) =~= f.take(taken as int).push(c));
                }
                if c != 48 {
                    assert(f.take(i + 1 - fs)[i - fs] != 48);
                }
                let old_t = f.take(i - fs);
                let new_t = f.take(i + 1 - fs);
                if nonzero {
                    let k = choose|k: int| 0 <= k < old_t.len() && old_t[k] != 48;
                    assert(new_t[k] != 48);
                }
                if has_nonzero(new_t) && c == 48 {
                    let k = choose|k: int| 0 <= k < new_t.len() && new_t[k] != 48;
                    assert(old_t[k] != 48);
                }
            }
            if taken < 4 {
                frac = frac * 10 + (c - 48) as u64;
                taken += 1;
            }
            if c != 48 {
                nonzero = true;
            }
            i += 1;
        }
        proof {
            assert(f.take(i - fs) =~= f);
        }
    }
    let ghost fseq = if we < hi {
        b@.subrange(fs as int, hi as int)
    } else {
        Seq::<u8>::empty()
    };
    proof {
        if we == hi {
            assert(taken == 0 && frac == 0);
            assert(!has_nonzero(fseq));
        }
        if fseq.len() < 4 {
            assert(fseq.take(taken as int) =~= fseq);
        }
    }
    if we == bs && (we == hi || hi - fs == 0) {
        return None;
    }
    if whole > 100 || (whole == 100 && nonzero) || (neg && (whole > 0 || nonzero)) {
        return Some(PERCENT_OUT_OF_RANGE);
    }
    let scale: u64 = if taken == 0 {
        10000
    } else if taken == 1 {
        1000
    } else if taken == 2 {
        100
    } else if taken == 3 {
        10
    } else {
        1
    };
    Some(whole * 10000 + frac * scale)
}

/// The length of the UTF-8 encoding of a Unicode white-space character at
/// `i` of `t`, or zero when there is none.
pub open spec fn space_len(t: Seq<u8>, i: int) -> int {
    if !(0 <= i < t.len()) {
        0
    } else if (9 <= t[i] <= 13) || t[i] == 32 {
        1
    } else if t[i] == 0xC2 && i + 1 < t.len() && (t[i + 1] == 0x85 || t[i + 1] == 0xA0) {
        2
    } else if i + 2 < t.len() && ((t[i] == 0xE1 && t[i + 1] == 0x9A && t[i + 2] == 0x80) || (t[i]
        == 0xE2 && t[i + 1] == 0x80 && ((0x80 <= t[i + 2] <= 0x8A) || t[i + 2] == 0xA8 || t[i + 2]
        == 0xA9 || t[i + 2] == 0xAF)) || (t[i] == 0xE2 && t[i + 1] == 0x81 && t[i + 2] == 0x9F)
        || (t[i] == 0xE3 && t[i + 1] == 0x80 && t[i + 2] == 0x80)) {
        3
    } else {
        0
    }
}

/// The first index at or after `i` that does not begin a white-space
/// character.
pub open spec fn spaces_end(t: Seq<u8>, i: int) -> int
    decreases t.len() - i,
{
    if 0 <= i < t.len() && space_len(t, i) > 0 {
        spaces_end(t, i + space_len(t, i))
    } else {
        i
    }
}

/// A duration: optional white space, digits, an optional unit `ms` or `s`,
/// optional white space. Without a unit only zero is accepted. The result
/// is in milliseconds; `None` also when it does not fit a `u64`.
pub open spec fn duration_text(t: Seq<u8>) -> Option<u64> {
    let a = spaces_end(t, 0);
    let d = digits_end(t, a);
    let magnitude = digits_value(t.subrange(a, d));
    let millis = d + 1 < t.len() && t[d] == 109 && t[d + 1] == 115;
    let secs = !millis && d < t.len() && t[d] == 115;
    let c = if millis {
        d + 2
    } else if secs {
        d + 1
    } else {
        d
    };
    if d == a || spaces_end(t, c) != t.len() {
        None
    } else if millis {
        if magnitude <= u64::MAX {
            Some(magnitude as u64)
        } else {
            None
        }
    } else if secs {
        if magnitude * 1000 <= u64::MAX {
            Some((magnitude * 1000) as u64)
        } else {
            None
        }
    } else if magnitude == 0 {
        Some(0)
    } else {
        None
    }
}

fn space_len_at(b: &[u8], lo: usize, hi: usize, i: usize) -> (r: usize)
    requires
        lo <= i <= hi <= b@.len(),
    ensures
        r == space_len(b@.subrange(lo as int, hi as int), i - lo),
{
    if i >= hi {
        return 0;
    }
    let c = b[i];
    if (9 <= c && c <= 13) || c == 32 {
        return 1;
    }
    if c == 0xC2 && i + 1 < hi && (b[i + 1] == 0x85 || b[i + 1] == 0xA0) {
        return 2;
    }
    if hi - i > 2 {
        let c1 = b[i + 1];
        let c2 = b[i + 2];
        if (c == 0xE1 && c1 == 0x9A && c2 == 0x80) || (c == 0xE2 && c1 == 0x80 && ((0x80 <= c2
            && c2 <= 0x8A) || c2 == 0xA8 || c2 == 0xA9 || c2 == 0xAF)) || (c == 0xE2 && c1 == 0x81
            && c2 == 0x9F) || (c == 0xE3 && c1 == 0x80 && c2 == 0x80) {
            return 3;
        }
    }
    0
}

fn skip_spaces(b: &[u8], lo: usize, hi: usize, i: usize) -> (r: usize)
    requires
        lo <= i <= hi <= b@.len(),
    ensures
        i <= r <= hi,
        r - lo == spaces_end(b@.subrange(lo as int, hi as int), i - lo),
{
    let ghost t = b@.subrange(lo as int, hi as int);
    let mut j = i;
    loop
        invariant
            lo <= i <= j <= hi <= b@.len(),
            t == b@.subrange(lo as int, hi as int),
            spaces_end(t, j - lo) == spaces_end(t, i - lo),
        decreases hi - j,
    {
        let n = space_len_at(b, lo, hi, j);
        if n == 0 {
            return j;
        }
        j = j + n;
    }
}

fn digits_end_at(b: &[u8], lo: usize, hi: usize, i: usize) -> (r: usize)
    requires
        lo <= i <= hi <= b@.len(),
    ensures
        i <= r <= hi,
        r - lo == digits_end(b@.subrange(lo as int, hi as int), i - lo),
{
    let ghost t = b@.subrange(lo as int, hi as int);
    let mut j = i;
    while j < hi && 48 <= b[j] && b[j] <= 57
        invariant
            lo <= i <= j <= hi <= b@.len(),
            t == b@.subrange(lo as int, hi as int),
            digits_end(t, j - lo) == digits_end(t, i - lo),
        decreases hi - j,
    {
        j += 1;
    }
    j
}

/// Reads a duration as `duration_text` describes, from `b[lo..hi]`.
pub fn parse_duration_millis(b: &[u8], lo: usize, hi: usize) -> (r: Option<u64>)
    requires
        lo <= hi <= b@.len(),
    ensures
        r == duration_text(b@.subrange(lo as int, hi as int)),
{
    let ghost t = b@.subrange(lo as int, hi as int);
    let a = skip_spaces(b, lo, hi, lo);
    let d = digits_end_at(b, lo, hi, a);
    if d == a {
        return None;
    }
    proof {
        lemma_digits_end(t, a - lo);
        let ds = b@.subrange(a as int, d as int);
        assert(ds =~= t.subrange(a - lo, d - lo));
        assert(all_digits(ds)) by {
            assert forall|k: int| 0 <= k < ds.len() implies is_digit(#[trigger] ds[k]) by {
                assert(ds[k] == t[a - lo + k]);
            }
        }
        assert(unsigned_digits(ds) =~= ds);
    }
    let magnitude = parse_u64(b, a, d);
    let millis = hi - d > 1 && b[d] == 109 && b[d + 1] == 115;
    let secs = !millis && d < hi && b[d] == 115;
    let c = if millis {
        d + 2
    } else if secs {
        d + 1
    } else {
        d
    };
    let end = skip_spaces(b, lo, hi, c);
    if end != hi {
        return None;
    }
    match magnitude {
        None => None,
        Some(m) => {
            if millis {
                Some(m)
            } else if secs {
                m.checked_mul(1000)
            } else if m == 0 {
                Some(0)
            } else {
                None
            }
        },
    }
}

/// Whether two byte strings are equal.
pub fn bytes_equal(a: &[u8], b: &[u8]) -> (r: bool)
    ensures
        r == (a@ == b@),
{
    if a.len() != b.len() {
        return false;
    }
    let mut i: usize = 0;
    while i < a.len()
        invariant
            a@.len() == b@.len(),
            i <= a@.len(),
            forall|k: int| 0 <= k < i ==> a@[k] == b@[k],
        decreases a@.len() - i,
    {
        if a[i] != b[i] {
            return false;
        }
        i += 1;
    }
    proof {
        assert(a@ =~= b@);
    }
    true
}

/// The first index at or after `i` that holds `c`, or `-1`.
pub open spec fn find(t: Seq<u8>, c: u8, i: int) -> int
    decreases t.len() - i,
{
    if !(0 <= i < t.len()) {
        -1
    } else if t[i] == c {
        i
    } else {
        find(t, c, i + 1)
    }
}

/// What `find` returns lies in range and holds `c`, with no `c` before it.
pub proof fn lemma_find(t: Seq<u8>, c: u8, i: int)
    requires
        0 <= i <= t.len(),
    ensures
        find(t, c, i) == -1 || (i <= find(t, c, i) < t.len() && t[find(t, c, i)] == c),
        find(t, c, i) == -1 ==> forall|k: int| i <= k < t.len() ==> t[k] != c,
    decreases t.len() - i,
{
    if i < t.len() && t[i] != c {
        lemma_find(t, c, i + 1);
    }
}

/// The pieces of `t[i..]` between the separators `sep`.
pub open spec fn items_from(t: Seq<u8>, sep: u8, i: int) -> Seq<Seq<u8>>
    decreases t.len() - i,
    via items_from_decreases
{
    let e = find(t, sep, i);
    if !(0 <= i <= t.len()) {
        Seq::empty()
    } else if e < 0 {
        seq![t.subrange(i, t.len() as int)]
    } else {
        seq![t.subrange(i, e)] + items_from(t, sep, e + 1)
    }
}

#[via_fn]
proof fn items_from_decreases(t: Seq<u8>, sep: u8, i: int) {
    if 0 <= i <= t.len() {
        lemma_find(t, sep, i);
    }
}

/// Finds `c` in `b[i..hi]`; `hi` when it is absent.
pub fn find_byte(b: &[u8], lo: usize, hi: usize, i: usize, c: u8) -> (r: usize)
    requires
        lo <= i <= hi <= b@.len(),
    ensures
        i <= r <= hi,
        r < hi ==> r - lo == find(b@.subrange(lo as int, hi as int), c, i - lo),
        r == hi ==> find(b@.subrange(lo as int, hi as int), c, i - lo) == -1,
{
    let ghost t = b@.subrange(lo as int, hi as int);
    let mut j = i;
    while j < hi
        invariant
            lo <= i <= j <= hi <= b@.len(),
            t == b@.subrange(lo as int, hi as int),
            find(t, c, j - lo) == find(t, c, i - lo),
        decreases hi - j,
    {
        if b[j] == c {
            return j;
        }
        j += 1;
    }
    j
}

} // verus!
