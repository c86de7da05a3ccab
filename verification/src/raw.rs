//! Byte-level ground work shared by the codec and the store: ASCII decimal
//! digits (the length fields of packed objects), first-occurrence search,
//! and byte-wise lexicographic ordering (the canonical tree-entry order).

use vstd::prelude::*;

verus! {

pub open spec fn is_digit(c: u8) -> bool {
    48 <= c <= 57
}

pub open spec fn digit_val(c: u8) -> nat {
    (c - 48) as nat
}

pub open spec fn digit_of(n: nat) -> u8
    recommends
        n < 10,
{
    (48 + n) as u8
}

pub open spec fn is_digit_seq(s: Seq<u8>) -> bool {
    forall|i: int| 0 <= i < s.len() ==> is_digit(#[trigger] s[i])
}

/// The numeric value of a digit string, most significant digit first.
pub open spec fn digits_val(s: Seq<u8>) -> nat
    decreases s.len(),
{
    if s.len() == 0 {
        0
    } else {
        digits_val(s.drop_last()) * 10 + digit_val(s.last())
    }
}

/// The canonical decimal form of `n`: no sign, no leading zeros.
pub open spec fn spec_dec(n: nat) -> Seq<u8>
    decreases n,
{
    if n < 10 {
        seq![digit_of(n)]
    } else {
        spec_dec(n / 10).push(digit_of(n % 10))
    }
}

pub proof fn lemma_spec_dec_digits(n: nat)
    ensures
        spec_dec(n).len() > 0,
        is_digit_seq(spec_dec(n)),
        digits_val(spec_dec(n)) == n,
    decreases n,
{
    if n < 10 {
        let s = spec_dec(n);
        assert(s =~= seq![digit_of(n)]);
        assert(s.len() == 1);
        assert(s.last() == digit_of(n));
        assert(s.drop_last() =~= Seq::<u8>::empty());
        assert(digits_val(Seq::<u8>::empty()) == 0);
        assert(digit_of(n) == 48 + n);
        assert(digits_val(s) == digits_val(s.drop_last()) * 10 + digit_val(s.last()));
    } else {
        lemma_spec_dec_digits(n / 10);
        let s = spec_dec(n / 10).push(digit_of(n % 10));
        assert(s.drop_last() =~= spec_dec(n / 10));
        assert(digit_of(n % 10) == 48 + n % 10);
        assert(digits_val(s) == digits_val(spec_dec(n / 10)) * 10 + digit_val(digit_of(n % 10)));
        assert(digits_val(s) == (n / 10) * 10 + n % 10);
        assert forall|i: int| 0 <= i < s.len() implies is_digit(#[trigger] s[i]) by {
            if i < s.len() - 1 {
                assert(s[i] == spec_dec(n / 10)[i]);
            } else {
                assert(s[i] == digit_of(n % 10));
            }
        }
    }
}

/// Appending further digits can only grow the value.
pub proof fn lemma_digits_val_prefix_le(s: Seq<u8>, i: int)
    requires
        0 <= i <= s.len(),
    ensures
        digits_val(s.subrange(0, i)) <= digits_val(s),
    decreases s.len() - i,
{
    if i == s.len() {
        assert(s.subrange(0, i) =~= s);
    } else {
        let t = s.subrange(0, i + 1);
        assert(t.drop_last() =~= s.subrange(0, i));
        assert(digits_val(t) == digits_val(s.subrange(0, i)) * 10 + digit_val(t.last()));
        lemma_digits_val_prefix_le(s, i + 1);
    }
}

/// The canonical decimal digits of `n`, most significant first.
pub fn decimal_bytes(n: u64) -> (r: Vec<u8>)
    ensures
        r@ == spec_dec(n as nat),
    decreases n,
{
    if n < 10 {
        let mut v: Vec<u8> = Vec::new();
        v.push(48 + n as u8);
        proof {
            assert(v@ =~= seq![digit_of(n as nat)]);
        }
        v
    } else {
        let mut v = decimal_bytes(n / 10);
        v.push(48 + (n % 10) as u8);
        proof {
            assert((n as nat) / 10 == (n / 10) as nat);
            assert((n as nat) % 10 == (n % 10) as nat);
            assert(48 + (n % 10) as u8 == digit_of((n as nat) % 10));
            assert(v@ =~= spec_dec((n as nat) / 10).push(digit_of((n as nat) % 10)));
        }
        v
    }
}

/// Parse `s[start..end]` as a decimal number. `None` when the token is
/// empty, holds a non-digit, or exceeds `usize`.
pub fn parse_decimal(s: &Vec<u8>, start: usize, end: usize) -> (r: Option<usize>)
    requires
        start <= end <= s@.len(),
    ensures
        ({
            let tok = s@.subrange(start as int, end as int);
            match r {
                Some(v) => tok.len() > 0 && is_digit_seq(tok) && v == digits_val(tok),
                None => !(tok.len() > 0 && is_digit_seq(tok) && digits_val(tok) <= usize::MAX),
            }
        }),
{
    let ghost tok = s@.subrange(start as int, end as int);
    if start == end {
        return None;
    }
    let mut acc: usize = 0;
    let mut i: usize = start;
    proof {
        assert(s@.subrange(start as int, start as int) =~= Seq::<u8>::empty());
    }
    while i < end
        invariant
            start <= i <= end <= s@.len(),
            tok == s@.subrange(start as int, end as int),
            is_digit_seq(s@.subrange(start as int, i as int)),
            acc == digits_val(s@.subrange(start as int, i as int)),
        decreases end - i,
    {
        let c = s[i];
        if c < 48 || c > 57 {
            proof {
                assert(tok[i - start] == s@[i as int]);
            }
            return None;
        }
        let d = (c - 48) as usize;
        let ghost p = s@.subrange(start as int, i as int);
        let ghost p1 = s@.subrange(start as int, i + 1);
        proof {
            assert(p1.drop_last() =~= p);
            assert(p1.last() == s@[i as int]);
            assert(digits_val(p1) == acc * 10 + digit_val(c));
            assert forall|k: int| 0 <= k < p1.len() implies is_digit(#[trigger] p1[k]) by {
                assert(p1[k] == s@[start + k]);
                if k < p1.len() - 1 {
                    assert(p[k] == s@[start + k]);
                }
            }
        }
        if acc > (usize::MAX - d) / 10 {
            proof {
                let q = (usize::MAX - d) / 10;
                assert(usize::MAX - d == 10 * q + (usize::MAX - d) % 10);
                assert(acc * 10 >= (q + 1) * 10) by (nonlinear_arith)
                    requires
                        acc >= q + 1,
                ;
                assert(acc * 10 + d > usize::MAX);
                if is_digit_seq(tok) && digits_val(tok) <= usize::MAX {
                    lemma_digits_val_prefix_le(tok, i + 1 - start);
                    assert(tok.subrange(0, i + 1 - start) =~= p1);
                    assert(false);
                }
            }
            return None;
        }
        proof {
            let q = (usize::MAX - d) / 10;
            assert(usize::MAX - d == 10 * q + (usize::MAX - d) % 10);
            assert(acc * 10 <= q * 10) by (nonlinear_arith)
                requires
                    acc <= q,
            ;
        }
        acc = acc * 10 + d;
        i += 1;
    }
    proof {
        assert(s@.subrange(start as int, i as int) =~= tok);
    }
    Some(acc)
}

/// The index of the first occurrence of `b` in `s`, if any.
pub open spec fn find_byte(s: Seq<u8>, b: u8) -> Option<int>
    decreases s.len(),
{
    if s.len() == 0 {
        None
    } else if s[0] == b {
        Some(0)
    } else {
        match find_byte(s.drop_first(), b) {
            Some(i) => Some(i + 1),
            None => None,
        }
    }
}

pub proof fn lemma_find_byte_spec(s: Seq<u8>, b: u8)
    ensures
        match find_byte(s, b) {
            Some(i) => 0 <= i < s.len() && s[i] == b && forall|j: int| 0 <= j < i ==> s[j] != b,
            None => forall|j: int| 0 <= j < s.len() ==> s[j] != b,
        },
    decreases s.len(),
{
    if s.len() > 0 && s[0] != b {
        lemma_find_byte_spec(s.drop_first(), b);
        let t = s.drop_first();
        match find_byte(t, b) {
            Some(i) => {
                assert(s[i + 1] == t[i]);
                assert forall|j: int| 0 <= j < i + 1 implies s[j] != b by {
                    if j > 0 {
                        assert(t[j - 1] == s[j]);
                    }
                }
            },
            None => {
                assert forall|j: int| 0 <= j < s.len() implies s[j] != b by {
                    if j > 0 {
                        assert(t[j - 1] == s[j]);
                    }
                }
            },
        }
    }
}

/// `find_byte` answers `Some(i)` exactly when `i` is the first hit.
pub proof fn lemma_find_byte_first(s: Seq<u8>, b: u8, i: int)
    requires
        0 <= i < s.len(),
        s[i] == b,
        forall|j: int| 0 <= j < i ==> s[j] != b,
    ensures
        find_byte(s, b) == Some(i),
{
    lemma_find_byte_spec(s, b);
    match find_byte(s, b) {
        Some(k) => {
            if k < i {
                assert(s[k] != b);
            }
            if i < k {
                assert(s[i] != b);
            }
        },
        None => {
            assert(s[i] != b);
        },
    }
}

/// Scan `s[from..]` for the first occurrence of `target`.
pub fn scan_byte(s: &Vec<u8>, from: usize, target: u8) -> (r: Option<usize>)
    requires
        from <= s@.len(),
    ensures
        match r {
            Some(i) => from <= i < s@.len() && find_byte(s@.subrange(from as int, s@.len() as int), target)
                == Some(i - from),
            None => find_byte(s@.subrange(from as int, s@.len() as int), target) is None,
        },
{
    let ghost tail = s@.subrange(from as int, s@.len() as int);
    let mut i: usize = from;
    while i < s.len()
        invariant
            from <= i <= s@.len(),
            tail == s@.subrange(from as int, s@.len() as int),
            forall|j: int| from <= j < i ==> s@[j] != target,
        decreases s@.len() - i,
    {
        if s[i] == target {
            proof {
                assert forall|j: int| 0 <= j < i - from implies tail[j] != target by {
                    assert(tail[j] == s@[from + j]);
                }
                assert(tail[i - from] == s@[i as int]);
                lemma_find_byte_first(tail, target, i - from);
            }
            return Some(i);
        }
        i += 1;
    }
    proof {
        lemma_find_byte_spec(tail, target);
        match find_byte(tail, target) {
            Some(k) => {
                assert(tail[k] == s@[from + k]);
                assert(false);
            },
            None => {},
        }
    }
    None
}

/// Append all of `src` to `out`.
pub fn push_all(out: &mut Vec<u8>, src: &Vec<u8>)
    ensures
        final(out)@ == old(out)@ + src@,
{
    let mut i: usize = 0;
    proof {
        assert(out@ =~= old(out)@ + src@.subrange(0, 0));
    }
    while i < src.len()
        invariant
            i <= src@.len(),
            out@ == old(out)@ + src@.subrange(0, i as int),
        decreases src@.len() - i,
    {
        out.push(src[i]);
        proof {
            assert(old(out)@ + src@.subrange(0, i + 1) =~= (old(out)@ + src@.subrange(
                0,
                i as int,
            )).push(src@[i as int]));
        }
        i += 1;
    }
    proof {
        assert(src@.subrange(0, src@.len() as int) =~= src@);
    }
}

/// The bytes `s[from..to]` as a fresh vector.
pub fn copy_range(s: &Vec<u8>, from: usize, to: usize) -> (r: Vec<u8>)
    requires
        from <= to <= s@.len(),
    ensures
        r@ == s@.subrange(from as int, to as int),
{
    let mut r: Vec<u8> = Vec::new();
    let mut i: usize = from;
    proof {
        assert(s@.subrange(from as int, from as int) =~= Seq::<u8>::empty());
    }
    while i < to
        invariant
            from <= i <= to <= s@.len(),
            r@ == s@.subrange(from as int, i as int),
        decreases to - i,
    {
        r.push(s[i]);
        proof {
            assert(s@.subrange(from as int, i + 1) =~= s@.subrange(from as int, i as int).push(
                s@[i as int],
            ));
        }
        i += 1;
    }
    proof {
        assert(r@ =~= s@.subrange(from as int, to as int));
    }
    r
}

/// Byte-wise lexicographic order: `a` at or before `b`.
pub open spec fn bytes_le(a: Seq<u8>, b: Seq<u8>) -> bool
    decreases a.len(),
{
    if a.len() == 0 {
        true
    } else if b.len() == 0 {
        false
    } else if a[0] < b[0] {
        true
    } else if a[0] > b[0] {
        false
    } else {
        bytes_le(a.drop_first(), b.drop_first())
    }
}

pub proof fn lemma_bytes_le_total(a: Seq<u8>, b: Seq<u8>)
    ensures
        bytes_le(a, b) || bytes_le(b, a),
        (bytes_le(a, b) && bytes_le(b, a)) ==> a == b,
    decreases a.len(),
{
    if a.len() == 0 && b.len() == 0 {
        assert(a =~= b);
    } else if a.len() > 0 && b.len() > 0 && a[0] == b[0] {
        lemma_bytes_le_total(a.drop_first(), b.drop_first());
        if bytes_le(a, b) && bytes_le(b, a) {
            assert(a.drop_first() == b.drop_first());
            assert(a =~= seq![a[0]] + a.drop_first());
            assert(b =~= seq![b[0]] + b.drop_first());
        }
    }
}

pub proof fn lemma_bytes_le_trans(a: Seq<u8>, b: Seq<u8>, c: Seq<u8>)
    requires
        bytes_le(a, b),
        bytes_le(b, c),
    ensures
        bytes_le(a, c),
    decreases a.len(),
{
    if a.len() > 0 && b.len() > 0 && c.len() > 0 {
        if a[0] == b[0] && b[0] == c[0] {
            lemma_bytes_le_trans(a.drop_first(), b.drop_first(), c.drop_first());
        }
    }
}

/// Compare two byte vectors in lexicographic order.
pub fn bytes_le_exec(a: &Vec<u8>, b: &Vec<u8>) -> (r: bool)
    ensures
        r == bytes_le(a@, b@),
{
    let mut i: usize = 0;
    proof {
        assert(a@.skip(0) =~= a@);
        assert(b@.skip(0) =~= b@);
    }
    loop
        invariant
            i <= a@.len(),
            i <= b@.len(),
            bytes_le(a@, b@) == bytes_le(a@.skip(i as int), b@.skip(i as int)),
        decreases a@.len() - i,
    {
        proof {
            let at = a@.skip(i as int);
            let bt = b@.skip(i as int);
            if i < a@.len() && i < b@.len() && a@[i as int] == b@[i as int] {
                assert(at.drop_first() =~= a@.skip(i + 1));
                assert(bt.drop_first() =~= b@.skip(i + 1));
            }
        }
        if i >= a.len() {
            return true;
        }
        if i >= b.len() {
            return false;
        }
        if a[i] < b[i] {
            return true;
        }
        if a[i] > b[i] {
            return false;
        }
        i += 1;
    }
}

} // verus!
