//! The HTTP target surface: a request's latency and size travel in the
//! query string, `latency_ms={u64}&size={usize}`.

use crate::latency::Latency;
use crate::message::Spec;
use crate::text::{
    all_digits, bytes_equal, digits_value, find, find_byte, items_from, lemma_digits_push, parse_u64,
    u64_text, unsigned_digits,
};
use vstd::arithmetic::div_mod::lemma_fundamental_div_mod;
use vstd::prelude::*;
use vstd::string::StringSliceAdditionalSpecFns;

verus! {

/// `latency_ms`
pub open spec fn latency_key() -> Seq<u8> {
    seq![108u8, 97, 116, 101, 110, 99, 121, 95, 109, 115]
}

/// `size`
pub open spec fn size_key() -> Seq<u8> {
    seq![115u8, 105, 122, 101]
}

/// One `key=value` parameter applied to a request: a latency or a size that
/// parses replaces the one before; anything else is ignored.
pub open spec fn apply_param(spec: Spec, item: Seq<u8>) -> Spec {
    let e = find(item, 61, 0);
    let key = item.take(e);
    let value = u64_text(item.skip(e + 1));
    if e < 0 {
        spec
    } else if key == latency_key() && value is Some {
        Spec { latency: Latency { millis: value->Some_0 }, response_size: spec.response_size }
    } else if key == size_key() && value is Some && value->Some_0 <= usize::MAX {
        Spec { latency: spec.latency, response_size: value->Some_0 as usize }
    } else {
        spec
    }
}

/// The parameters applied in order.
pub open spec fn apply_params(spec: Spec, items: Seq<Seq<u8>>) -> Spec
    decreases items.len(),
{
    if items.len() == 0 {
        spec
    } else {
        apply_params(apply_param(spec, items[0]), items.skip(1))
    }
}

/// The request that a query string asks for, from a zero latency and size.
pub open spec fn query_spec(q: Seq<u8>) -> Spec {
    apply_params(Spec { latency: Latency { millis: 0 }, response_size: 0 }, items_from(q, 38, 0))
}

fn apply_item(spec: Spec, b: &[u8], lo: usize, hi: usize) -> (r: Spec)
    requires
        lo <= hi <= b@.len(),
    ensures
        r == apply_param(spec, b@.subrange(lo as int, hi as int)),
{
    let ghost item = b@.subrange(lo as int, hi as int);
    let e = find_byte(b, lo, hi, lo, 61);
    if e == hi {
        return spec;
    }
    proof {
        assert(item.take(e - lo) =~= b@.subrange(lo as int, e as int));
        assert(item.skip(e - lo + 1) =~= b@.subrange(e + 1, hi as int));
    }
    let key = vstd::slice::slice_subrange(b, lo, e);
    let latency: [u8; 10] = [108u8, 97, 116, 101, 110, 99, 121, 95, 109, 115];
    let size: [u8; 4] = [115u8, 105, 122, 101];
    proof {
        assert(latency@ =~= latency_key());
        assert(size@ =~= size_key());
    }
    let value = parse_u64(b, e + 1, hi);
    if bytes_equal(key, latency.as_slice()) {
        if let Some(ms) = value {
            return Spec { latency: Latency { millis: ms }, response_size: spec.response_size };
        }
        return spec;
    }
    if bytes_equal(key, size.as_slice()) {
        if let Some(n) = value {
            if n <= usize::MAX as u64 {
                return Spec { latency: spec.latency, response_size: n as usize };
            }
        }
    }
    spec
}

/// Reads the request that a query string asks for: `latency_ms` and `size`
/// parameters that parse, the last one of each winning; zero for what is
/// missing.
pub fn parse_query(q: &str) -> (r: Spec)
    ensures
        r == query_spec(q.spec_bytes()),
{
    let b = q.as_bytes();
    let n = b.len();
    let ghost t = b@;
    let mut spec = Spec { latency: Latency { millis: 0 }, response_size: 0 };
    let mut start: usize = 0;
    loop
        invariant
            0 <= start <= n,
            n == b@.len(),
            t == b@,
            t == q.spec_bytes(),
            query_spec(t) == apply_params(spec, items_from(t, 38, start as int)),
        decreases n - start,
    {
        proof {
            assert(b@.subrange(0, n as int) =~= t);
        }
        let e = find_byte(b, 0, n, start, 38);
        let ghost item = t.subrange(start as int, e as int);
        let ghost rest = if e < n {
            items_from(t, 38, e + 1)
        } else {
            Seq::<Seq<u8>>::empty()
        };
        proof {
            assert(items_from(t, 38, start as int) =~= seq![item] + rest);
            assert((seq![item] + rest)[0] == item);
            assert((seq![item] + rest).skip(1) =~= rest);
        }
        let ghost before = spec;
        spec = apply_item(spec, b, start, e);
        proof {
            assert(apply_params(before, seq![item] + rest) == apply_params(spec, rest));
        }
        if e == n {
            proof {
                assert(apply_params(spec, rest) == spec);
            }
            return spec;
        }
        start = e + 1;
    }
}

// === Query strings ===

/// The decimal digits of `n`, without leading zeros.
pub open spec fn decimal(n: nat) -> Seq<u8>
    decreases n,
{
    if n < 10 {
        seq![(48 + n) as u8]
    } else {
        decimal(n / 10).push((48 + n % 10) as u8)
    }
}

/// The query string that asks for a request:
/// `latency_ms={latency}&size={size}`.
pub open spec fn query_bytes(s: Spec) -> Seq<u8> {
    latency_key() + seq![61u8] + decimal(s.latency.millis as nat) + seq![38u8] + size_key() + seq![
        61u8,
    ] + decimal(s.response_size as nat)
}

fn push_decimal(dst: &mut Vec<u8>, n: u64)
    ensures
        final(dst)@ == old(dst)@ + decimal(n as nat),
    decreases n,
{
    let ghost before = dst@;
    if n >= 10 {
        push_decimal(dst, n / 10);
    }
    dst.push(48 + (n % 10) as u8);
    proof {
        if n >= 10 {
            assert(dst@ =~= before + decimal(n as nat));
        } else {
            assert(dst@ =~= before + decimal(n as nat));
        }
    }
}

fn push_bytes(dst: &mut Vec<u8>, b: &[u8])
    ensures
        final(dst)@ == old(dst)@ + b@,
{
    let ghost before = dst@;
    let mut i: usize = 0;
    while i < b.len()
        invariant
            i <= b@.len(),
            dst@ == before + b@.take(i as int),
        decreases b@.len() - i,
    {
        dst.push(b[i]);
        proof {
            assert(b@.take(i + 1) =~= b@.take(i as int).push(b@[i as int]));
        }
        i += 1;
    }
    proof {
        assert(b@.take(b@.len() as int) =~= b@);
    }
}

/// The query string that asks a server for `spec`, in bytes (all ASCII).
pub fn query_for(spec: &Spec) -> (r: Vec<u8>)
    ensures
        r@ == query_bytes(*spec),
{
    let latency: [u8; 11] = [108u8, 97, 116, 101, 110, 99, 121, 95, 109, 115, 61];
    let size: [u8; 6] = [38u8, 115, 105, 122, 101, 61];
    let mut r: Vec<u8> = Vec::new();
    push_bytes(&mut r, latency.as_slice());
    push_decimal(&mut r, spec.latency.millis);
    push_bytes(&mut r, size.as_slice());
    push_decimal(&mut r, spec.response_size as u64);
    proof {
        assert(r@ =~= query_bytes(*spec));
    }
    r
}

/// The digits of a number read back as that number.
pub proof fn lemma_decimal(n: nat)
    ensures
        decimal(n).len() > 0,
        all_digits(decimal(n)),
        digits_value(decimal(n)) == n,
    decreases n,
{
    if n < 10 {
        let c = (48 + n) as u8;
        assert(c == 48 + n);
        assert(decimal(n) == seq![c]);
        assert(seq![c].drop_last() =~= Seq::<u8>::empty());
        assert(digits_value(seq![c]) == digits_value(Seq::<u8>::empty()) * 10 + (c - 48) as nat);
    } else {
        lemma_decimal(n / 10);
        lemma_digits_push(decimal(n / 10), (48 + n % 10) as u8);
        lemma_fundamental_div_mod(n as int, 10);
        assert((n / 10) * 10 == 10 * (n / 10)) by (nonlinear_arith);
        let c = (48 + n % 10) as u8;
        assert(c == 48 + n % 10);
        assert(digits_value(decimal(n)) == digits_value(decimal(n / 10)) * 10 + (c - 48) as nat);
        let d = decimal(n);
        assert forall|i: int| 0 <= i < d.len() implies crate::text::is_digit(#[trigger] d[i]) by {
            if i < d.len() - 1 {
                assert(d[i] == decimal(n / 10)[i]);
            }
        }
    }
}

/// `find` reaches the first `c` at or after `i`.
proof fn lemma_find_at(t: Seq<u8>, c: u8, i: int, k: int)
    requires
        0 <= i <= k <= t.len(),
        forall|j: int| i <= j < k ==> t[j] != c,
        k == t.len() || t[k] == c,
    ensures
        find(t, c, i) == (if k == t.len() {
            -1
        } else {
            k
        }),
    decreases k - i,
{
    if i < k {
        lemma_find_at(t, c, i + 1, k);
    }
}

/// One parameter whose value is a number: it sets that number.
proof fn lemma_param(key: Seq<u8>, n: nat)
    requires
        n <= u64::MAX,
        forall|j: int| 0 <= j < key.len() ==> key[j] != 61,
    ensures
        find(key + seq![61u8] + decimal(n), 61, 0) == key.len(),
        (key + seq![61u8] + decimal(n)).take(key.len() as int) == key,
        u64_text((key + seq![61u8] + decimal(n)).skip(key.len() + 1int)) == Some(n as u64),
{
    let item = key + seq![61u8] + decimal(n);
    lemma_decimal(n);
    lemma_find_at(item, 61, 0, key.len() as int);
    assert(item.take(key.len() as int) =~= key);
    assert(item.skip(key.len() + 1int) =~= decimal(n));
    assert(unsigned_digits(decimal(n)) =~= decimal(n)) by {
        assert(crate::text::is_digit(decimal(n)[0]));
    }
}

/// A server reads back exactly the request whose query string a client
/// wrote.
pub proof fn lemma_query_round_trip(s: Spec)
    ensures
        query_spec(query_bytes(s)) == s,
{
    let ms = s.latency.millis as nat;
    let size = s.response_size as nat;
    let first = latency_key() + seq![61u8] + decimal(ms);
    let second = size_key() + seq![61u8] + decimal(size);
    let q = query_bytes(s);
    assert(q =~= first + seq![38u8] + second);
    lemma_decimal(ms);
    lemma_decimal(size);
    assert forall|j: int| 0 <= j < first.len() implies q[j] != 38 by {
        if j >= latency_key().len() + 1 {
            assert(crate::text::is_digit(decimal(ms)[j - latency_key().len() - 1]));
        }
    }
    lemma_find_at(q, 38, 0, first.len() as int);
    assert forall|j: int| first.len() + 1 <= j < q.len() implies q[j] != 38 by {
        let k = j - first.len() - 1;
        if k >= size_key().len() + 1 {
            assert(crate::text::is_digit(decimal(size)[k - size_key().len() - 1]));
        }
    }
    lemma_find_at(q, 38, first.len() + 1int, q.len() as int);
    assert(q.subrange(0, first.len() as int) =~= first);
    assert(q.subrange(first.len() + 1int, q.len() as int) =~= second);
    assert(items_from(q, 38, first.len() + 1int) =~= seq![second]);
    assert(items_from(q, 38, 0) =~= seq![first, second]);
    lemma_param(latency_key(), ms);
    lemma_param(size_key(), size);
    let d = Spec { latency: Latency { millis: 0 }, response_size: 0 };
    let after_first = apply_param(d, first);
    assert(first.take(latency_key().len() as int) == latency_key());
    assert(after_first == Spec { latency: s.latency, response_size: 0 });
    assert(size_key().len() != latency_key().len());
    assert(second.take(size_key().len() as int) == size_key());
    assert(second.take(size_key().len() as int) != latency_key());
    assert(apply_param(after_first, second) == s);
    assert(seq![first, second].skip(1) =~= seq![second]);
    assert(seq![second].skip(1) =~= Seq::<Seq<u8>>::empty());
    assert(seq![first, second][0] == first);
    assert(seq![second][0] == second);
    assert(apply_params(d, seq![first, second]) == apply_params(after_first, seq![second]));
    assert(apply_params(after_first, seq![second]) == apply_params(s, Seq::<Seq<u8>>::empty()));
}

} // verus!
