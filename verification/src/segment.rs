use vstd::prelude::*;

verus! {

// ---------------------------------------------------------------- names of segment files

/// The ASCII digit `d`.
pub open spec fn digit_byte(d: nat) -> u8 {
    (d + 48) as u8
}

/// The decimal digits of `n` in ASCII, most significant first, with no leading zero.
pub open spec fn decimal_bytes(n: nat) -> Seq<u8>
    decreases n,
{
    if n < 10 {
        seq![digit_byte(n)]
    } else {
        decimal_bytes(n / 10).push(digit_byte(n % 10))
    }
}

/// `k` ASCII zeros.
pub open spec fn zeros(k: nat) -> Seq<u8> {
    Seq::new(k, |i: int| 48u8)
}

/// The decimal digits of `n`, zero-padded on the left to at least ten.
pub open spec fn padded_decimal(n: nat) -> Seq<u8> {
    let d = decimal_bytes(n);
    if d.len() < 10 {
        zeros((10 - d.len()) as nat) + d
    } else {
        d
    }
}

/// The file name of the segment with index `idx`: its index zero-padded to ten digits, then
/// `.wal`.
pub open spec fn segment_name(idx: u64) -> Seq<u8> {
    padded_decimal(idx as nat) + seq![46u8, 119u8, 97u8, 108u8]
}

/// Every byte is an ASCII digit.
pub open spec fn all_digits(s: Seq<u8>) -> bool {
    forall|i: int| 0 <= i < s.len() ==> 48 <= #[trigger] s[i] <= 57
}

/// The number a string of ASCII digits writes in decimal.
pub open spec fn digits_value(s: Seq<u8>) -> int
    decreases s.len(),
{
    if s.len() == 0 {
        0
    } else {
        digits_value(s.drop_last()) * 10 + (s.last() - 48)
    }
}

/// What `str::parse::<u64>` gives for the text `s`: an optional leading `+`, then at least
/// one decimal digit and nothing else, with a value that fits; `None` otherwise.
pub open spec fn parse_u64_decimal(s: Seq<u8>) -> Option<u64> {
    let d = if s.len() > 0 && s[0] == 43u8 {
        s.drop_first()
    } else {
        s
    };
    if d.len() == 0 || !all_digits(d) || digits_value(d) > u64::MAX {
        None
    } else {
        Some(digits_value(d) as u64)
    }
}

/// Append the decimal digits of `n`.
fn push_decimal(v: &mut Vec<u8>, n: u64)
    ensures
        final(v)@ == old(v)@ + decimal_bytes(n as nat),
    decreases n,
{
    if n >= 10 {
        push_decimal(v, n / 10);
    }
    v.push((n % 10) as u8 + 48);
    proof {
        if n < 10 {
            assert(decimal_bytes(n as nat) =~= seq![digit_byte(n as nat)]);
        }
    }
    assert(v@ =~= old(v)@ + decimal_bytes(n as nat));
}

/// The file name of the segment with index `idx`, as `format!("{:010}.wal", idx)` writes it.
pub fn segment_file_name(idx: u64) -> (name: Vec<u8>)
    ensures
        name@ == segment_name(idx),
{
    let mut digits: Vec<u8> = Vec::new();
    push_decimal(&mut digits, idx);
    assert(digits@ =~= decimal_bytes(idx as nat));
    let mut name: Vec<u8> = Vec::new();
    let n = digits.len();
    if n < 10 {
        let pad = 10 - n;
        let mut k: usize = 0;
        while k < pad
            invariant
                k <= pad,
                name@ =~= zeros(k as nat),
            decreases pad - k,
        {
            name.push(48);
            k = k + 1;
        }
    }
    let ghost before = name@;
    let mut i: usize = 0;
    while i < n
        invariant
            n == digits@.len(),
            i <= n,
            name@ =~= before + digits@.take(i as int),
        decreases n - i,
    {
        name.push(digits[i]);
        i = i + 1;
    }
    assert(digits@.take(n as int) =~= digits@);
    name.push(46);
    name.push(119);
    name.push(97);
    name.push(108);
    assert(name@ =~= segment_name(idx));
    name
}

/// The index of a segment from the stem of its file name, as `str::parse::<u64>` reads it.
pub fn segment_index_of_stem(stem: &[u8]) -> (r: Option<u64>)
    ensures
        r == parse_u64_decimal(stem@),
{
    let n = stem.len();
    let mut start: usize = 0;
    if n > 0 && stem[0] == 43 {
        start = 1;
    }
    let ghost d = if stem@.len() > 0 && stem@[0] == 43u8 {
        stem@.drop_first()
    } else {
        stem@
    };
    assert(d =~= stem@.skip(start as int));
    if start == n {
        return None;
    }
    let mut acc: u64 = 0;
    let mut i: usize = start;
    assert(d.take(0) =~= Seq::<u8>::empty());
    while i < n
        invariant
            start <= i <= n,
            n == stem@.len(),
            d =~= stem@.skip(start as int),
            d == (if stem@.len() > 0 && stem@[0] == 43u8 {
                stem@.drop_first()
            } else {
                stem@
            }),
            all_digits(d.take(i - start)),
            acc == digits_value(d.take(i - start)),
        decreases n - i,
    {
        let b = stem[i];
        let ghost k = i - start;
        assert(d[k] == b);
        if b < 48 || b > 57 {
            assert(!(48 <= d[k] <= 57));
            assert(!all_digits(d));
            assert(parse_u64_decimal(stem@) is None);
            return None;
        }
        assert(d.take(k + 1).drop_last() =~= d.take(k));
        assert(all_digits(d.take(k + 1)));
        if acc > (u64::MAX - (b - 48) as u64) / 10 {
            proof {
                let x: int = b - 48;
                let a: int = acc as int;
                assert(a * 10 + x > u64::MAX) by (nonlinear_arith)
                    requires
                        a > (u64::MAX - x) / 10,
                        0 <= x <= 9,
                ;
                assert(digits_value(d.take(k + 1)) == acc * 10 + (b - 48));
                if all_digits(d) {
                    lemma_digits_value_prefix(d, k + 1);
                }
                assert(parse_u64_decimal(stem@) is None);
            }
            return None;
        }
        acc = acc * 10 + (b - 48) as u64;
        i = i + 1;
    }
    assert(d.take(n - start) =~= d);
    Some(acc)
}

/// A string of digits is worth at least any of its prefixes.
proof fn lemma_digits_value_prefix(s: Seq<u8>, k: int)
    requires
        all_digits(s),
        0 <= k <= s.len(),
    ensures
        digits_value(s) >= digits_value(s.take(k)),
        digits_value(s.take(k)) >= 0,
    decreases s.len(),
{
    if k == s.len() {
        assert(s.take(k) =~= s);
        lemma_digits_value_nonneg(s);
    } else {
        let d = s.drop_last();
        assert(all_digits(d)) by {
            assert forall|i: int| 0 <= i < d.len() implies 48 <= #[trigger] d[i] <= 57 by {
                assert(d[i] == s[i]);
            }
        }
        lemma_digits_value_prefix(d, k);
        assert(d.take(k) =~= s.take(k));
        assert(48 <= s[s.len() - 1] <= 57);
    }
}

proof fn lemma_digits_value_nonneg(s: Seq<u8>)
    requires
        all_digits(s),
    ensures
        digits_value(s) >= 0,
    decreases s.len(),
{
    if s.len() > 0 {
        let d = s.drop_last();
        assert(all_digits(d)) by {
            assert forall|i: int| 0 <= i < d.len() implies 48 <= #[trigger] d[i] <= 57 by {
                assert(d[i] == s[i]);
            }
        }
        lemma_digits_value_nonneg(d);
        assert(48 <= s[s.len() - 1] <= 57);
    }
}

// ---------------------------------------------------------------- byte-wise order

/// `a` sorts strictly before `b`, byte by byte, a proper prefix first.
pub open spec fn seq_lt(a: Seq<u8>, b: Seq<u8>) -> bool
    decreases a.len(),
{
    if a.len() == 0 {
        b.len() > 0
    } else if b.len() == 0 {
        false
    } else if a[0] < b[0] {
        true
    } else if a[0] > b[0] {
        false
    } else {
        seq_lt(a.drop_first(), b.drop_first())
    }
}

/// Ten to the power `k`.
pub open spec fn pow10(k: nat) -> nat
    decreases k,
{
    if k == 0 {
        1
    } else {
        10 * pow10((k - 1) as nat)
    }
}

proof fn lemma_decimal(n: nat)
    ensures
        all_digits(decimal_bytes(n)),
        digits_value(decimal_bytes(n)) == n,
        decimal_bytes(n).len() >= 1,
    decreases n,
{
    let d = decimal_bytes(n);
    assert(digit_byte(n % 10) == n % 10 + 48);
    if n < 10 {
        assert(d.drop_last() =~= Seq::<u8>::empty());
        assert(n % 10 == n);
        assert(digits_value(d.drop_last()) == 0);
        assert(d.last() == digit_byte(n));
        assert(digits_value(d) == digits_value(d.drop_last()) * 10 + (d.last() - 48));
    } else {
        lemma_decimal(n / 10);
        assert(d.drop_last() =~= decimal_bytes(n / 10));
        assert(n == (n / 10) * 10 + n % 10) by (nonlinear_arith);
        assert(d.last() == digit_byte(n % 10));
        assert(digits_value(d) == digits_value(d.drop_last()) * 10 + (d.last() - 48));
        assert forall|i: int| 0 <= i < d.len() implies 48 <= #[trigger] d[i] <= 57 by {
            if i < d.len() - 1 {
                assert(d[i] == decimal_bytes(n / 10)[i]);
            }
        }
    }
}

proof fn lemma_decimal_len(n: nat, k: nat)
    requires
        k >= 1,
        n < pow10(k),
    ensures
        decimal_bytes(n).len() <= k,
    decreases k,
{
    if n >= 10 {
        assert(k >= 2) by {
            if k == 1 {
                assert(pow10(0) == 1);
            }
        }
        let p = pow10((k - 1) as nat);
        assert(n / 10 < p) by (nonlinear_arith)
            requires
                n < 10 * p,
        ;
        lemma_decimal_len(n / 10, (k - 1) as nat);
    }
}

proof fn lemma_zeros_value(k: nat)
    ensures
        all_digits(zeros(k)),
        digits_value(zeros(k)) == 0,
    decreases k,
{
    if k > 0 {
        assert(zeros(k).drop_last() =~= zeros((k - 1) as nat));
        lemma_zeros_value((k - 1) as nat);
    }
}

proof fn lemma_padded_value(k: nat, s: Seq<u8>)
    requires
        all_digits(s),
    ensures
        all_digits(zeros(k) + s),
        digits_value(zeros(k) + s) == digits_value(s),
    decreases s.len(),
{
    lemma_zeros_value(k);
    let z = zeros(k) + s;
    assert forall|i: int| 0 <= i < z.len() implies 48 <= #[trigger] z[i] <= 57 by {
        if i >= k {
            assert(z[i] == s[i - k]);
        }
    }
    if s.len() == 0 {
        assert(z =~= zeros(k));
    } else {
        let d = s.drop_last();
        assert(all_digits(d)) by {
            assert forall|i: int| 0 <= i < d.len() implies 48 <= #[trigger] d[i] <= 57 by {
                assert(d[i] == s[i]);
            }
        }
        lemma_padded_value(k, d);
        assert(z.drop_last() =~= zeros(k) + d);
    }
}

proof fn lemma_padded(n: nat)
    ensures
        all_digits(padded_decimal(n)),
        digits_value(padded_decimal(n)) == n,
        padded_decimal(n).len() >= 10,
        n < pow10(10) ==> padded_decimal(n).len() == 10,
        padded_decimal(n)[0] != 43u8,
{
    lemma_decimal(n);
    let d = decimal_bytes(n);
    if d.len() < 10 {
        lemma_padded_value((10 - d.len()) as nat, d);
    }
    if n < pow10(10) {
        lemma_decimal_len(n, 10);
    }
    assert(48 <= padded_decimal(n)[0] <= 57);
}

/// Reading back the index from a segment's file name, without its `.wal`, gives the index.
pub proof fn law_segment_name_round_trip(idx: u64)
    ensures
        segment_name(idx).take(segment_name(idx).len() - 4) == padded_decimal(idx as nat),
        parse_u64_decimal(segment_name(idx).take(segment_name(idx).len() - 4)) == Some(idx),
{
    lemma_padded(idx as nat);
    let p = padded_decimal(idx as nat);
    assert(segment_name(idx).take(segment_name(idx).len() - 4) =~= p);
}

proof fn lemma_lt_same_head(a: Seq<u8>, b: Seq<u8>, x: u8, y: u8)
    requires
        a == b,
        x < y,
    ensures
        seq_lt(a.push(x), b.push(y)),
    decreases a.len(),
{
    if a.len() > 0 {
        assert(a.push(x).drop_first() =~= a.drop_first().push(x));
        assert(b.push(y).drop_first() =~= b.drop_first().push(y));
        lemma_lt_same_head(a.drop_first(), b.drop_first(), x, y);
    }
}

proof fn lemma_lt_append(a: Seq<u8>, b: Seq<u8>, c: Seq<u8>, e: Seq<u8>)
    requires
        a.len() == b.len(),
        seq_lt(a, b),
    ensures
        seq_lt(a + c, b + e),
    decreases a.len(),
{
    if a.len() > 0 && a[0] == b[0] {
        assert((a + c).drop_first() =~= a.drop_first() + c);
        assert((b + e).drop_first() =~= b.drop_first() + e);
        lemma_lt_append(a.drop_first(), b.drop_first(), c, e);
    }
}

proof fn lemma_digits_inj(a: Seq<u8>, b: Seq<u8>)
    requires
        a.len() == b.len(),
        all_digits(a),
        all_digits(b),
        digits_value(a) == digits_value(b),
    ensures
        a == b,
    decreases a.len(),
{
    if a.len() > 0 {
        let a1 = a.drop_last();
        let b1 = b.drop_last();
        assert(all_digits(a1)) by {
            assert forall|i: int| 0 <= i < a1.len() implies 48 <= #[trigger] a1[i] <= 57 by {
                assert(a1[i] == a[i]);
            }
        }
        assert(all_digits(b1)) by {
            assert forall|i: int| 0 <= i < b1.len() implies 48 <= #[trigger] b1[i] <= 57 by {
                assert(b1[i] == b[i]);
            }
        }
        let x = a[a.len() - 1];
        let y = b[b.len() - 1];
        assert(48 <= x <= 57);
        assert(48 <= y <= 57);
        let va = digits_value(a1);
        let vb = digits_value(b1);
        assert(va * 10 + (x - 48) == vb * 10 + (y - 48));
        assert(va == vb && x == y) by (nonlinear_arith)
            requires
                va * 10 + (x - 48) == vb * 10 + (y - 48),
                48 <= x <= 57,
                48 <= y <= 57,
        ;
        lemma_digits_inj(a1, b1);
        assert(a =~= a1.push(x));
        assert(b =~= b1.push(y));
    }
}

proof fn lemma_digits_lt(a: Seq<u8>, b: Seq<u8>)
    requires
        a.len() == b.len(),
        all_digits(a),
        all_digits(b),
        digits_value(a) < digits_value(b),
    ensures
        seq_lt(a, b),
    decreases a.len(),
{
    let a1 = a.drop_last();
    let b1 = b.drop_last();
    assert(all_digits(a1)) by {
        assert forall|i: int| 0 <= i < a1.len() implies 48 <= #[trigger] a1[i] <= 57 by {
            assert(a1[i] == a[i]);
        }
    }
    assert(all_digits(b1)) by {
        assert forall|i: int| 0 <= i < b1.len() implies 48 <= #[trigger] b1[i] <= 57 by {
            assert(b1[i] == b[i]);
        }
    }
    assert(a.len() > 0);
    let x = a[a.len() - 1];
    let y = b[b.len() - 1];
    assert(48 <= x <= 57);
    assert(48 <= y <= 57);
    assert(a =~= a1.push(x));
    assert(b =~= b1.push(y));
    if digits_value(a1) < digits_value(b1) {
        lemma_digits_lt(a1, b1);
        lemma_lt_append(a1, b1, seq![x], seq![y]);
        assert(a1 + seq![x] =~= a);
        assert(b1 + seq![y] =~= b);
    } else if digits_value(a1) == digits_value(b1) {
        lemma_digits_inj(a1, b1);
        lemma_lt_same_head(a1, b1, x, y);
    } else {
        assert(false);
    }
}

/// Segment files list in the order of their indices, as long as the indices have at most
/// ten digits: above that the zero padding no longer evens out the lengths, and a longer
/// name can sort before a shorter one.
pub proof fn law_segment_names_sort_as_indices(i: u64, j: u64)
    requires
        i < j < 10_000_000_000,
    ensures
        seq_lt(segment_name(i), segment_name(j)),
{
    assert(pow10(10) == 10_000_000_000) by {
        reveal_with_fuel(pow10, 11);
    }
    lemma_padded(i as nat);
    lemma_padded(j as nat);
    lemma_digits_lt(padded_decimal(i as nat), padded_decimal(j as nat));
    lemma_lt_append(
        padded_decimal(i as nat),
        padded_decimal(j as nat),
        seq![46u8, 119u8, 97u8, 108u8],
        seq![46u8, 119u8, 97u8, 108u8],
    );
}

// ---------------------------------------------------------------- listing segments

/// A file name with the extension `wal`: something before a final `.wal`.
pub open spec fn is_wal_name(n: Seq<u8>) -> bool {
    n.len() > 4 && n.skip(n.len() - 4) == seq![46u8, 119u8, 97u8, 108u8]
}

/// The names among `s` with the extension `wal`, in their order.
pub open spec fn wal_names(s: Seq<Seq<u8>>) -> Seq<Seq<u8>>
    decreases s.len(),
{
    if s.len() == 0 {
        seq![]
    } else if is_wal_name(s.last()) {
        wal_names(s.drop_last()).push(s.last())
    } else {
        wal_names(s.drop_last())
    }
}

/// The names in ascending byte-wise order.
pub open spec fn sorted_names(s: Seq<Seq<u8>>) -> bool {
    forall|i: int, j: int| 0 <= i < j < s.len() ==> !seq_lt(#[trigger] s[j], #[trigger] s[i])
}

/// The byte strings that the names hold.
pub open spec fn names_view(v: Seq<Vec<u8>>) -> Seq<Seq<u8>> {
    v.map_values(|n: Vec<u8>| n@)
}

proof fn lemma_lt_trans(a: Seq<u8>, b: Seq<u8>, c: Seq<u8>)
    requires
        seq_lt(a, b),
        seq_lt(b, c),
    ensures
        seq_lt(a, c),
    decreases a.len(),
{
    if a.len() > 0 && b.len() > 0 && c.len() > 0 && a[0] == b[0] && b[0] == c[0] {
        lemma_lt_trans(a.drop_first(), b.drop_first(), c.drop_first());
    }
}

proof fn lemma_lt_asym(a: Seq<u8>, b: Seq<u8>)
    requires
        seq_lt(a, b),
    ensures
        !seq_lt(b, a),
    decreases a.len(),
{
    if a.len() > 0 && b.len() > 0 && a[0] == b[0] {
        lemma_lt_asym(a.drop_first(), b.drop_first());
    }
}

/// Whether `a` sorts strictly before `b`, byte by byte.
pub fn bytes_lt(a: &[u8], b: &[u8]) -> (r: bool)
    ensures
        r == seq_lt(a@, b@),
{
    let mut i: usize = 0;
    assert(a@.skip(0) =~= a@);
    assert(b@.skip(0) =~= b@);
    while i < a.len() && i < b.len()
        invariant
            i <= a@.len(),
            i <= b@.len(),
            seq_lt(a@, b@) == seq_lt(a@.skip(i as int), b@.skip(i as int)),
        decreases a@.len() - i,
    {
        if a[i] < b[i] {
            return true;
        }
        if a[i] > b[i] {
            return false;
        }
        assert(a@.skip(i as int).drop_first() =~= a@.skip(i + 1));
        assert(b@.skip(i as int).drop_first() =~= b@.skip(i + 1));
        i = i + 1;
    }
    i == a.len() && i < b.len()
}

/// The segment files among the names of a directory's entries: those with the extension
/// `wal`, in ascending byte-wise order, which is the order of their indices while these
/// have at most ten digits.
pub fn wal_segment_names(names: Vec<Vec<u8>>) -> (r: Vec<Vec<u8>>)
    ensures
        sorted_names(names_view(r@)),
        names_view(r@).to_multiset() == wal_names(names_view(names@)).to_multiset(),
{
    let mut out: Vec<Vec<u8>> = Vec::new();
    let n = names.len();
    let mut i: usize = 0;
    let ghost all = names_view(names@);
    assert(all.take(0) =~= Seq::<Seq<u8>>::empty());
    assert(names_view(out@) =~= Seq::<Seq<u8>>::empty());
    while i < n
        invariant
            n == names@.len(),
            all == names_view(names@),
            i <= n,
            sorted_names(names_view(out@)),
            names_view(out@).to_multiset() == wal_names(all.take(i as int)).to_multiset(),
        decreases n - i,
    {
        let x = names[i].clone();
        assert(x@ == all[i as int]);
        assert(all.take(i + 1).drop_last() =~= all.take(i as int));
        assert(all.take(i + 1).last() == all[i as int]);
        let len = x.len();
        let keep = len > 4 && x[len - 4] == 46 && x[len - 3] == 119 && x[len - 2] == 97 && x[len - 1] == 108;
        let ghost prev = wal_names(all.take(i as int));
        assert(wal_names(all.take(i + 1)) == (if is_wal_name(x@) {
            prev.push(x@)
        } else {
            prev
        }));
        assert(keep == is_wal_name(x@)) by {
            if len > 4 {
                let t = x@.skip(len - 4);
                if keep {
                    assert(t =~= seq![46u8, 119u8, 97u8, 108u8]);
                } else {
                    assert(t[0] == x@[len - 4]);
                    assert(t[1] == x@[len - 3]);
                    assert(t[2] == x@[len - 2]);
                    assert(t[3] == x@[len - 1]);
                }
            }
        }
        if keep {
            let ghost before = names_view(out@);
            let mut p: usize = 0;
            while p < out.len()
                invariant
                    p <= out@.len(),
                    before == names_view(out@),
                    forall|k: int| 0 <= k < p ==> !seq_lt(x@, #[trigger] before[k]),
                ensures
                    p <= out@.len(),
                    before == names_view(out@),
                    forall|k: int| 0 <= k < p ==> !seq_lt(x@, #[trigger] before[k]),
                    p < out@.len() ==> seq_lt(x@, before[p as int]),
                decreases out@.len() - p,
            {
                assert(before[p as int] == out@[p as int]@);
                if bytes_lt(x.as_slice(), out[p].as_slice()) {
                    break;
                }
                p = p + 1;
            }
            proof {
                assert(p < before.len() ==> seq_lt(x@, before[p as int]));
            }
            let ghost xv = x@;
            out.insert(p, x);
            proof {
                let after = names_view(out@);
                assert(after =~= before.insert(p as int, xv));
                assert forall|a: int, b: int| 0 <= a < b < after.len() implies !seq_lt(
                    #[trigger] after[b],
                    #[trigger] after[a],
                ) by {
                    if b < p {
                        assert(after[a] == before[a] && after[b] == before[b]);
                    } else if b == p {
                        assert(after[a] == before[a]);
                    } else if a == p {
                        assert(after[b] == before[b - 1]);
                        if seq_lt(before[b - 1], xv) {
                            if b - 1 > p {
                                lemma_lt_trans(before[b - 1], xv, before[p as int]);
                            } else {
                                lemma_lt_asym(xv, before[p as int]);
                            }
                        }
                    } else if a < p {
                        assert(after[a] == before[a] && after[b] == before[b - 1]);
                    } else {
                        assert(after[a] == before[a - 1] && after[b] == before[b - 1]);
                    }
                }
                assert(after.remove(p as int) =~= before);
                assert(after[p as int] == xv);
                assert(after.to_multiset() =~= before.to_multiset().insert(xv)) by {
                    broadcast use vstd::seq_lib::group_to_multiset_ensures;
                    assert(after.remove(p as int).to_multiset() =~= after.to_multiset().remove(xv));
                    assert(after.contains(xv));
                }
                assert(prev.push(xv).to_multiset() =~= prev.to_multiset().insert(xv)) by {
                    broadcast use vstd::seq_lib::group_to_multiset_ensures;
                }
            }
        }
        i = i + 1;
    }
    assert(all.take(n as int) =~= all);
    out
}

} // verus!
