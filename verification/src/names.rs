//! The shapes of the names that AS-set members may take: an AS number such as
//! `AS65000`, or the name of an AS-set such as `AS-EXAMPLE`,
//! `AS65000:AS-EXAMPLE` or `RIPE::AS-EXAMPLE`.
use vstd::prelude::*;

verus! {

pub open spec fn is_digit(c: char) -> bool {
    '0' <= c && c <= '9'
}

pub open spec fn is_upper(c: char) -> bool {
    'A' <= c && c <= 'Z'
}

/// `AS` followed by one or more decimal digits, and nothing else.
pub open spec fn is_asn_name(s: Seq<char>) -> bool {
    &&& s.len() >= 3
    &&& s[0] == 'A'
    &&& s[1] == 'S'
    &&& forall|k: int| 2 <= k < s.len() ==> is_digit(#[trigger] s[k])
}

/// The value of the decimal digits `s`.
pub open spec fn digits_value(s: Seq<char>) -> nat
    decreases s.len(),
{
    if s.len() == 0 {
        0
    } else {
        digits_value(s.drop_last()) * 10 + ((s.last() as int) - ('0' as int)) as nat
    }
}

/// Whether `n` is an AS number in public use. Left out are the numbers that
/// IANA sets aside: 0, `AS_TRANS` (23456), those for documentation
/// (64496-64511 and 65536-65551), for private use (64512-65534 and
/// 4200000000-4294967294), and the reserved ones (65535, 65552-131071 and
/// 4294967295); and any number past 32 bits.
pub open spec fn is_public_asn_number(n: nat) -> bool {
    &&& 1 <= n
    &&& n != 23456
    &&& !(64496 <= n && n <= 131071)
    &&& n < 4200000000
}

/// An AS number, `AS` and digits, whose number is in public use.
pub open spec fn is_public_asn_name(s: Seq<char>) -> bool {
    &&& is_asn_name(s)
    &&& is_public_asn_number(digits_value(s.subrange(2, s.len() as int)))
}

proof fn lemma_digits_value_grows(s: Seq<char>, i: int)
    requires
        0 <= i <= s.len(),
        forall|k: int| 0 <= k < s.len() ==> is_digit(#[trigger] s[k]),
    ensures
        digits_value(s.take(i)) <= digits_value(s),
    decreases s.len(),
{
    if i < s.len() {
        lemma_digits_value_grows(s.drop_last(), i);
        assert(s.drop_last().take(i) =~= s.take(i));
        assert(is_digit(s.last()));
    } else {
        assert(s.take(i) =~= s);
    }
}

/// Empty, or one or more capital letters followed by `::` (a registry prefix
/// such as `RIPE::`).
pub open spec fn is_registry_prefix(p: Seq<char>) -> bool {
    ||| p.len() == 0
    ||| {
        &&& p.len() >= 3
        &&& p[p.len() - 2] == ':'
        &&& p[p.len() - 1] == ':'
        &&& forall|k: int| 0 <= k < p.len() - 2 ==> is_upper(#[trigger] p[k])
    }
}

/// `p` is `AS`, then digits up to index `d` (at least one), then colons to
/// its end (at least one).
pub open spec fn owner_split(p: Seq<char>, d: int) -> bool {
    &&& 3 <= d < p.len()
    &&& p[0] == 'A'
    &&& p[1] == 'S'
    &&& forall|k: int| 2 <= k < d ==> is_digit(#[trigger] p[k])
    &&& forall|k: int| d <= k < p.len() ==> #[trigger] p[k] == ':'
}

/// Empty, or `AS`, one or more digits and one or more colons (an owner
/// prefix such as `AS65000:`).
pub open spec fn is_owner_prefix(p: Seq<char>) -> bool {
    p.len() == 0 || exists|d: int| owner_split(p, d)
}

/// One or more characters, each a capital letter, a digit or `-`.
pub open spec fn is_set_suffix(t: Seq<char>) -> bool {
    &&& t.len() >= 1
    &&& forall|k: int|
        0 <= k < t.len() ==> is_upper(#[trigger] t[k]) || is_digit(t[k]) || t[k] == '-'
}

/// The witnesses of `is_as_set_name`: `s[..i]` is a registry prefix,
/// `s[i..j]` an owner prefix, `s[j..j + 3]` is `AS-` and the rest a set suffix.
pub open spec fn as_set_split(s: Seq<char>, i: int, j: int) -> bool {
    &&& 0 <= i <= j
    &&& j + 3 < s.len() + 1
    &&& is_registry_prefix(s.subrange(0, i))
    &&& is_owner_prefix(s.subrange(i, j))
    &&& s[j] == 'A'
    &&& s[j + 1] == 'S'
    &&& s[j + 2] == '-'
    &&& is_set_suffix(s.subrange(j + 3, s.len() as int))
}

/// An optional registry prefix, an optional owner prefix, then `AS-` and a
/// non-empty suffix of capital letters, digits and dashes: the language of
/// `^([A-Z]+::)?(AS[0-9]+[:]+)?AS-[A-Z0-9-]+$`.
pub open spec fn is_as_set_name(s: Seq<char>) -> bool {
    exists|i: int, j: int| as_set_split(s, i, j)
}

fn is_digit_char(c: char) -> (b: bool)
    ensures
        b == is_digit(c),
{
    '0' <= c && c <= '9'
}

fn is_upper_char(c: char) -> (b: bool)
    ensures
        b == is_upper(c),
{
    'A' <= c && c <= 'Z'
}

/// Whether `s` is an AS number, `AS` followed by digits only.
pub fn is_asn(s: &Vec<char>) -> (b: bool)
    ensures
        b == is_asn_name(s@),
{
    let n = s.len();
    if n < 3 || s[0] != 'A' || s[1] != 'S' {
        return false;
    }
    let mut k: usize = 2;
    while k < n
        invariant
            n == s@.len(),
            2 <= k <= n,
            forall|m: int| 2 <= m < k ==> is_digit(#[trigger] s@[m]),
        decreases n - k,
    {
        if !is_digit_char(s[k]) {
            return false;
        }
        k = k + 1;
    }
    true
}


/// Whether `s` is an AS number in public use (see `is_public_asn_number`).
pub fn is_public_asn(s: &Vec<char>) -> (b: bool)
    ensures
        b == is_public_asn_name(s@),
{
    if !is_asn(s) {
        return false;
    }
    let ghost d = s@.subrange(2, s@.len() as int);
    let mut v: u64 = 0;
    let mut k: usize = 2;
    while k < s.len()
        invariant
            2 <= k <= s@.len(),
            is_asn_name(s@),
            d == s@.subrange(2, s@.len() as int),
            v == digits_value(d.take(k - 2)),
            v < 4200000000,
        decreases s@.len() - k,
    {
        let c = s[k];
        assert(is_digit(s@[k as int]));
        let dig: u64 = (c as u32 - '0' as u32) as u64;
        let nv: u64 = v * 10 + dig;
        proof {
            let t = d.take(k - 1);
            assert(t.drop_last() =~= d.take(k - 2));
            assert(t.last() == c);
        }
        if nv >= 4200000000 {
            proof {
                assert forall|m: int| 0 <= m < d.len() implies is_digit(#[trigger] d[m]) by {
                    assert(d[m] == s@[m + 2]);
                }
                lemma_digits_value_grows(d, k - 1);
            }
            return false;
        }
        v = nv;
        k = k + 1;
    }
    assert(d.take(k - 2) =~= d);
    v >= 1 && v != 23456 && !(64496 <= v && v <= 131071)
}

/// Where the registry prefix of `s` ends, given `k`, the length of the run of
/// capital letters that `s` starts with.
pub open spec fn registry_end(s: Seq<char>, k: int) -> int {
    if k >= 1 && k + 2 <= s.len() && s[k] == ':' && s[k + 1] == ':' {
        k + 2
    } else {
        0
    }
}

/// The registry prefix of an AS-set name is decided by the leading run of
/// capital letters.
proof fn lemma_registry_prefix_determined(s: Seq<char>, k: int, i0: int, j0: int)
    requires
        0 <= k <= s.len(),
        forall|m: int| 0 <= m < k ==> is_upper(#[trigger] s[m]),
        k == s.len() || !is_upper(s[k]),
        as_set_split(s, i0, j0),
    ensures
        i0 == registry_end(s, k),
{
    let p = s.subrange(0, i0);
    if i0 > 0 {
        assert(p[p.len() - 2] == s[i0 - 2]);
        if k < i0 - 2 {
            assert(p[k] == s[k]);
        }
        if k > i0 - 2 {
            assert(is_upper(s[i0 - 2]));
        }
        assert(k == i0 - 2);
        assert(p[p.len() - 1] == s[i0 - 1]);
    } else {
        let q = s.subrange(i0, j0);
        if registry_end(s, k) != 0 {
            if j0 > i0 {
                let e = lemma_owner_witness(s, i0, j0);
                assert(is_digit(s[2]));
                if k >= 3 {
                    assert(is_upper(s[2]));
                }
            } else {
                if k >= 3 {
                    assert(is_upper(s[2]));
                }
            }
        }
    }
}

/// A non-empty owner prefix `s[i..j0]`, spelled out on `s`: its digits end at
/// `i + e`.
proof fn lemma_owner_witness(s: Seq<char>, i: int, j0: int) -> (e: int)
    requires
        0 <= i < j0 <= s.len(),
        is_owner_prefix(s.subrange(i, j0)),
    ensures
        3 <= e < j0 - i,
        s[i] == 'A',
        s[i + 1] == 'S',
        forall|m: int| i + 2 <= m < i + e ==> is_digit(#[trigger] s[m]),
        forall|m: int| i + e <= m < j0 ==> #[trigger] s[m] == ':',
{
    let q = s.subrange(i, j0);
    let e = choose|e: int| owner_split(q, e);
    assert(q[0] == s[i]);
    assert(q[1] == s[i + 1]);
    assert forall|m: int| i + 2 <= m < i + e implies is_digit(#[trigger] s[m]) by {
        assert(q[m - i] == s[m]);
    }
    assert forall|m: int| i + e <= m < j0 implies #[trigger] s[m] == ':' by {
        assert(q[m - i] == s[m]);
    }
    e
}

/// The owner prefix `AS<digits><colons>` that starts at `i`, with its digits
/// ending at `i + e`, ends exactly where the run of colons after the run of
/// digits ends.
proof fn lemma_owner_run(s: Seq<char>, i: int, e: int, j0: int, d: int, c: int)
    requires
        0 <= i,
        i + 3 <= i + e < j0 < s.len(),
        forall|m: int| i + 2 <= m < i + e ==> is_digit(#[trigger] s[m]),
        forall|m: int| i + e <= m < j0 ==> #[trigger] s[m] == ':',
        s[j0] == 'A',
        i + 2 < d <= c <= s.len(),
        forall|m: int| i + 2 <= m < d ==> is_digit(#[trigger] s[m]),
        d == s.len() || !is_digit(s[d]),
        forall|m: int| d <= m < c ==> #[trigger] s[m] == ':',
        c == s.len() || s[c] != ':',
    ensures
        d == i + e,
        c == j0,
{
    if d < i + e {
        assert(s[d] == ':');
    }
    if d > i + e {
        assert(is_digit(s[i + e]));
    }
    if c < j0 {
        assert(s[c] == ':');
    }
    if c > j0 {
        assert(s[j0] == ':');
    }
}

/// Given where the registry prefix ends, the owner prefix of an AS-set name is
/// decided too: it is taken exactly when `AS` and a digit come next, and it
/// then runs over the digits and the colons that follow.
proof fn lemma_owner_prefix_determined(s: Seq<char>, i: int, d: int, c: int, j0: int)
    requires
        0 <= i <= j0,
        j0 + 3 <= s.len(),
        is_owner_prefix(s.subrange(i, j0)),
        s[j0] == 'A',
        s[j0 + 2] == '-',
        i + 2 < s.len(),
        is_digit(s[i + 2]),
        i + 2 < d <= c <= s.len(),
        forall|m: int| i + 2 <= m < d ==> is_digit(#[trigger] s[m]),
        d == s.len() || !is_digit(s[d]),
        forall|m: int| d <= m < c ==> #[trigger] s[m] == ':',
        c == s.len() || s[c] != ':',
    ensures
        c > d,
        j0 == c,
{
    if j0 == i {
        assert(s[i + 2] == '-');
    } else {
        let e = lemma_owner_witness(s, i, j0);
        lemma_owner_run(s, i, e, j0, d, c);
    }
}

/// Whether `s` is the name of an AS-set, as the pattern
/// `^([A-Z]+::)?(AS[0-9]+[:]+)?AS-[A-Z0-9-]+$` decides it.
pub fn is_as_set(s: &Vec<char>) -> (b: bool)
    ensures
        b == is_as_set_name(s@),
{
    let n = s.len();
    let mut k: usize = 0;
    while k < n && is_upper_char(s[k])
        invariant
            n == s@.len(),
            k <= n,
            forall|m: int| 0 <= m < k ==> is_upper(#[trigger] s@[m]),
        decreases n - k,
    {
        k = k + 1;
    }
    let i: usize = if k >= 1 && k < n && k + 1 < n && s[k] == ':' && s[k + 1] == ':' {
        k + 2
    } else {
        0
    };
    assert(i == registry_end(s@, k as int));
    proof {
        assert forall|i0: int, j0: int| as_set_split(s@, i0, j0) implies i0 == i by {
            lemma_registry_prefix_determined(s@, k as int, i0, j0);
        }
    }
    let mut j: usize = i;
    assert(i <= n);
    let ghost owner_taken = false;
    let ghost dd: int = 0;
    if i < n && i + 1 < n && i + 2 < n && s[i] == 'A' && s[i + 1] == 'S' && is_digit_char(s[i + 2]) {
        let mut d: usize = i + 2;
        while d < n && is_digit_char(s[d])
            invariant
                n == s@.len(),
                i + 2 <= d <= n,
                forall|m: int| i + 2 <= m < d ==> is_digit(#[trigger] s@[m]),
            decreases n - d,
        {
            d = d + 1;
        }
        let mut c: usize = d;
        while c < n && s[c] == ':'
            invariant
                n == s@.len(),
                d <= c <= n,
                forall|m: int| d <= m < c ==> #[trigger] s@[m] == ':',
            decreases n - c,
        {
            c = c + 1;
        }
        proof {
            assert forall|i0: int, j0: int| as_set_split(s@, i0, j0) implies j0 == c && c > d by {
                lemma_owner_prefix_determined(s@, i as int, d as int, c as int, j0);
            }
        }
        if c == d {
            proof {
                if is_as_set_name(s@) {
                    let (i0, j0) = choose|i0: int, j0: int| as_set_split(s@, i0, j0);
                    assert(j0 == c && c > d);
                }
            }
            return false;
        }
        j = c;
        proof {
            owner_taken = true;
            dd = d - i;
        }
    } else {
        proof {
            assert forall|i0: int, j0: int| as_set_split(s@, i0, j0) implies j0 == i by {
                if j0 > i0 {
                    let e = lemma_owner_witness(s@, i0, j0);
                    assert(is_digit(s@[i + 2]));
                }
            }
        }
    }
    // every split of `s` that shows it an AS-set name is at (i, j)
    assert(j <= n);
    assert(forall|i0: int, j0: int| as_set_split(s@, i0, j0) ==> j0 == j);
    if n - j <= 3 || s[j] != 'A' || s[j + 1] != 'S' || s[j + 2] != '-' {
        proof {
            if is_as_set_name(s@) {
                let (i0, j0) = choose|i0: int, j0: int| as_set_split(s@, i0, j0);
                assert(j0 == j);
                let u = s@.subrange(j0 + 3, n as int);
                assert(u.len() >= 1);
            }
        }
        return false;
    }
    let mut t: usize = j + 3;
    while t < n
        invariant
            n == s@.len(),
            j + 3 <= t <= n,
            forall|i0: int, j0: int| as_set_split(s@, i0, j0) ==> j0 == j,
            forall|m: int| j + 3 <= m < t ==> is_upper(#[trigger] s@[m]) || is_digit(s@[m]) || s@[m]
                == '-',
        decreases n - t,
    {
        let ch = s[t];
        if !(is_upper_char(ch) || is_digit_char(ch) || ch == '-') {
            proof {
                if is_as_set_name(s@) {
                    let (i0, j0) = choose|i0: int, j0: int| as_set_split(s@, i0, j0);
                    assert(j0 == j);
                    let u = s@.subrange(j0 + 3, n as int);
                    assert(u[t - j0 - 3] == s@[t as int]);
                }
            }
            return false;
        }
        t = t + 1;
    }
    proof {
        let p = s@.subrange(0, i as int);
        if i > 0 {
            assert forall|m: int| 0 <= m < p.len() - 2 implies is_upper(#[trigger] p[m]) by {
                assert(p[m] == s@[m]);
            }
            assert(p[p.len() - 2] == s@[k as int]);
            assert(p[p.len() - 1] == s@[k + 1]);
        }
        assert(is_registry_prefix(p));
        let q = s@.subrange(i as int, j as int);
        if owner_taken {
            assert(q[dd] == s@[i + dd]);
            assert(q[0] == s@[i as int]);
            assert(q[1] == s@[i + 1]);
            assert forall|m: int| 2 <= m < dd implies is_digit(#[trigger] q[m]) by {
                assert(q[m] == s@[i + m]);
            }
            assert forall|m: int| dd <= m < q.len() implies #[trigger] q[m] == ':' by {
                assert(q[m] == s@[i + m]);
            }
            assert(owner_split(q, dd));
        } else {
            assert(q.len() == 0);
        }
        assert(is_owner_prefix(q));
        let u = s@.subrange(j + 3, n as int);
        assert forall|m: int| 0 <= m < u.len() implies is_upper(#[trigger] u[m]) || is_digit(u[m])
            || u[m] == '-' by {
            assert(u[m] == s@[j + 3 + m]);
        }
        assert(as_set_split(s@, i as int, j as int));
    }
    true
}

/// An AS number is never taken for an AS-set name: the two shapes do not
/// overlap.
pub proof fn law_asn_is_not_as_set(s: Seq<char>)
    requires
        is_asn_name(s),
    ensures
        !is_as_set_name(s),
{
    if is_as_set_name(s) {
        let (i, j) = choose|i: int, j: int| as_set_split(s, i, j);
        assert(is_digit(s[j + 2]));
    }
}

} // verus!
