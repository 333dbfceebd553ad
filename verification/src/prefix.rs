//! IP prefixes of route objects: reading `address/length` for IPv4 and IPv6,
//! writing it back in canonical form, and telling prefixes in public use
//! from those set aside.
use vstd::prelude::*;
use crate::names::{digits_value, is_digit};
use crate::text::{char_vecs, decimal, push_char, push_decimal, split_chars, split_on};

verus! {

// ---------------------------------------------------------------------------
// Reading
// ---------------------------------------------------------------------------

/// The value of a hexadecimal digit, or -1 for any other character.
pub open spec fn hex_digit_value(c: char) -> int {
    if '0' <= c && c <= '9' {
        (c as int) - ('0' as int)
    } else if 'a' <= c && c <= 'f' {
        (c as int) - ('a' as int) + 10
    } else if 'A' <= c && c <= 'F' {
        (c as int) - ('A' as int) + 10
    } else {
        -1
    }
}

/// The value of the hexadecimal digits `s`.
pub open spec fn hex_value(s: Seq<char>) -> nat
    decreases s.len(),
{
    if s.len() == 0 {
        0
    } else {
        hex_value(s.drop_last()) * 16 + hex_digit_value(s.last()) as nat
    }
}

/// A group of an IPv6 address: one to four hexadecimal digits, and its value.
pub open spec fn group_value(s: Seq<char>) -> Option<nat> {
    if 1 <= s.len() <= 4 && forall|k: int| 0 <= k < s.len() ==> hex_digit_value(#[trigger] s[k]) >= 0 {
        Some(hex_value(s))
    } else {
        None
    }
}

/// A decimal field: one to three decimal digits whose value is at most `max`.
pub open spec fn dec_field(s: Seq<char>, max: nat) -> Option<nat> {
    if 1 <= s.len() <= 3 && (forall|k: int| 0 <= k < s.len() ==> is_digit(#[trigger] s[k])) && digits_value(s)
        <= max {
        Some(digits_value(s))
    } else {
        None
    }
}

/// The values of `pieces` as IPv6 groups, if each is one.
pub open spec fn group_values(pieces: Seq<Seq<char>>) -> Option<Seq<nat>>
    decreases pieces.len(),
{
    if pieces.len() == 0 {
        Some(Seq::empty())
    } else {
        match (group_values(pieces.drop_last()), group_value(pieces.last())) {
            (Some(a), Some(g)) => Some(a.push(g)),
            _ => None,
        }
    }
}

/// The values of `pieces` as octets (0 to 255), if each is one.
pub open spec fn octet_values(pieces: Seq<Seq<char>>) -> Option<Seq<nat>>
    decreases pieces.len(),
{
    if pieces.len() == 0 {
        Some(Seq::empty())
    } else {
        match (octet_values(pieces.drop_last()), dec_field(pieces.last(), 255)) {
            (Some(a), Some(o)) => Some(a.push(o)),
            _ => None,
        }
    }
}

/// The four octets of an IPv4 address in dotted decimal.
pub open spec fn v4_address(s: Seq<char>) -> Option<Seq<nat>> {
    if split_on(s, '.').len() == 4 {
        octet_values(split_on(s, '.'))
    } else {
        None
    }
}

/// Where the first `::` of `s` starts; the length of `s` where there is none.
pub open spec fn first_double_colon(s: Seq<char>) -> nat
    decreases s.len(),
{
    if s.len() < 2 {
        s.len()
    } else if s[0] == ':' && s[1] == ':' {
        0
    } else {
        1 + first_double_colon(s.drop_first())
    }
}

/// The groups on one side of a `::`: none where the side is empty.
pub open spec fn side_groups(t: Seq<char>) -> Option<Seq<nat>> {
    if t.len() == 0 {
        Some(Seq::empty())
    } else {
        group_values(split_on(t, ':'))
    }
}

/// The eight groups of an IPv6 address: eight groups separated by colons,
/// or fewer with one `::` standing for the zero groups left out.
pub open spec fn v6_address(s: Seq<char>) -> Option<Seq<nat>> {
    let p = first_double_colon(s) as int;
    if p < s.len() {
        match (side_groups(s.take(p)), side_groups(s.skip(p + 2))) {
            (Some(a), Some(b)) => if a.len() + b.len() <= 7 {
                Some(a + Seq::new((8 - a.len() - b.len()) as nat, |i: int| 0nat) + b)
            } else {
                None
            },
            _ => None,
        }
    } else {
        match group_values(split_on(s, ':')) {
            Some(g) => if g.len() == 8 {
                Some(g)
            } else {
                None
            },
            None => None,
        }
    }
}

// ---------------------------------------------------------------------------
// Public use
// ---------------------------------------------------------------------------

/// Whether the IPv4 address `o` lies outside the blocks that are not
/// routed on the Internet: this network (0/8), private use (10/8,
/// 172.16/12, 192.168/16), shared address space (100.64/10), loopback
/// (127/8), link local (169.254/16), IETF protocol assignments (192.0.0/24),
/// documentation (192.0.2/24, 198.51.100/24, 203.0.113/24), benchmarking
/// (198.18/15), multicast (224/4) and reserved (240/4).
pub open spec fn is_public_v4(o: Seq<nat>) -> bool {
    let a = o[0];
    let b = o[1];
    let c = o[2];
    !{
        ||| a == 0 || a == 10 || a == 127 || a >= 224
        ||| a == 100 && 64 <= b && b <= 127
        ||| a == 169 && b == 254
        ||| a == 172 && 16 <= b && b <= 31
        ||| a == 192 && b == 0 && (c == 0 || c == 2)
        ||| a == 192 && b == 168
        ||| a == 198 && (b == 18 || b == 19)
        ||| a == 198 && b == 51 && c == 100
        ||| a == 203 && b == 0 && c == 113
    }
}

/// Whether the IPv6 address `g` lies outside the blocks that are not routed
/// on the Internet: the reserved ::/8 (unspecified, loopback, IPv4-mapped),
/// discard (100::/64), documentation (2001:db8::/32, 3fff::/20), unique
/// local (fc00::/7), link local (fe80::/10) and multicast (ff00::/8).
pub open spec fn is_public_v6(g: Seq<nat>) -> bool {
    !{
        ||| g[0] < 0x100
        ||| g[0] == 0x100 && g[1] == 0 && g[2] == 0 && g[3] == 0
        ||| g[0] == 0x2001 && g[1] == 0xdb8
        ||| g[0] == 0x3fff && g[1] < 0x1000
        ||| 0xfc00 <= g[0] && g[0] <= 0xfdff
        ||| 0xfe80 <= g[0] && g[0] <= 0xfebf
        ||| g[0] >= 0xff00
    }
}

// ---------------------------------------------------------------------------
// Writing
// ---------------------------------------------------------------------------

/// The IPv4 address `o` in dotted decimal, without leading zeros.
pub open spec fn v4_text(o: Seq<nat>) -> Seq<char> {
    decimal(o[0]) + "."@ + decimal(o[1]) + "."@ + decimal(o[2]) + "."@ + decimal(o[3])
}

/// The lower-case hexadecimal digit character for `d`.
pub open spec fn hex_char(d: nat) -> char {
    if d < 10 {
        crate::text::digit_char(d)
    } else if d == 10 {
        'a'
    } else if d == 11 {
        'b'
    } else if d == 12 {
        'c'
    } else if d == 13 {
        'd'
    } else if d == 14 {
        'e'
    } else {
        'f'
    }
}

/// `n` in lower-case hexadecimal, without leading zeros.
pub open spec fn hex_text(n: nat) -> Seq<char>
    decreases n,
{
    if n < 16 {
        seq![hex_char(n)]
    } else {
        hex_text(n / 16).push(hex_char(n % 16))
    }
}

/// The groups `g` in hexadecimal, separated by colons.
pub open spec fn joined_groups(g: Seq<nat>) -> Seq<char>
    decreases g.len(),
{
    if g.len() == 0 {
        Seq::empty()
    } else if g.len() == 1 {
        hex_text(g[0])
    } else {
        joined_groups(g.drop_last()) + ":"@ + hex_text(g.last())
    }
}

/// How many zero groups follow one another from index `i` on.
pub open spec fn zero_run(g: Seq<nat>, i: int) -> nat
    decreases g.len() - i,
{
    if 0 <= i < g.len() && g[i] == 0 {
        1 + zero_run(g, i + 1)
    } else {
        0
    }
}

/// Among the runs of zero groups that start before index `n`, where the
/// longest starts and its length; the first of equally long ones.
pub open spec fn longest_zero_run(g: Seq<nat>, n: int) -> (int, nat)
    decreases n,
{
    if n <= 0 {
        (0, 0)
    } else {
        let best = longest_zero_run(g, n - 1);
        if zero_run(g, n - 1) > best.1 {
            (n - 1, zero_run(g, n - 1))
        } else {
            best
        }
    }
}

/// The IPv6 address `g` in the canonical text of RFC 5952: groups in
/// lower-case hexadecimal without leading zeros, and the longest run of two
/// or more zero groups (the first of equally long ones) written as `::`.
pub open spec fn v6_text(g: Seq<nat>) -> Seq<char> {
    let best = longest_zero_run(g, g.len() as int);
    if best.1 >= 2 {
        joined_groups(g.take(best.0)) + "::"@ + joined_groups(g.skip(best.0 + best.1))
    } else {
        joined_groups(g)
    }
}

/// The prefix `s` (an address, `/` and a length) in canonical form, where it
/// is an IPv4 or IPv6 prefix in public use; none otherwise.
pub open spec fn normalized_prefix(s: Seq<char>) -> Option<Seq<char>> {
    let parts = split_on(s, '/');
    if parts.len() != 2 {
        None
    } else {
        match v4_address(parts[0]) {
            Some(o) => match dec_field(parts[1], 32) {
                Some(l) => if is_public_v4(o) {
                    Some(v4_text(o) + "/"@ + decimal(l))
                } else {
                    None
                },
                None => None,
            },
            None => match v6_address(parts[0]) {
                Some(g) => match dec_field(parts[1], 128) {
                    Some(l) => if is_public_v6(g) {
                        Some(v6_text(g) + "/"@ + decimal(l))
                    } else {
                        None
                    },
                    None => None,
                },
                None => None,
            },
        }
    }
}

/// The values of `v` as natural numbers.
pub open spec fn nats(v: Seq<u32>) -> Seq<nat> {
    v.map_values(|x: u32| x as nat)
}

pub open spec fn opt_nats(v: Option<Vec<u32>>) -> Option<Seq<nat>> {
    match v {
        Some(x) => Some(nats(x@)),
        None => None,
    }
}

// ---------------------------------------------------------------------------
// Reading, executably
// ---------------------------------------------------------------------------

fn hex_digit(c: char) -> (r: Option<u32>)
    ensures
        match r {
            Some(d) => hex_digit_value(c) >= 0 && d == hex_digit_value(c) && d < 16,
            None => hex_digit_value(c) < 0,
        },
{
    if '0' <= c && c <= '9' {
        Some(c as u32 - '0' as u32)
    } else if 'a' <= c && c <= 'f' {
        Some(c as u32 - 'a' as u32 + 10)
    } else if 'A' <= c && c <= 'F' {
        Some(c as u32 - 'A' as u32 + 10)
    } else {
        None
    }
}

fn parse_group(t: &Vec<char>) -> (r: Option<u32>)
    ensures
        match r {
            Some(v) => group_value(t@) == Some(v as nat) && v < 65536,
            None => group_value(t@) is None,
        },
{
    let n = t.len();
    if n < 1 || n > 4 {
        return None;
    }
    let mut v: u32 = 0;
    let mut bound: u32 = 1;
    let mut k: usize = 0;
    while k < n
        invariant
            n == t@.len(),
            1 <= n <= 4,
            k <= n,
            v == hex_value(t@.take(k as int)),
            v < bound,
            bound == if k == 0 { 1u32 } else if k == 1 { 16u32 } else if k == 2 { 256u32 } else if k == 3 { 4096u32 } else { 65536u32 },
            forall|m: int| 0 <= m < k ==> hex_digit_value(#[trigger] t@[m]) >= 0,
        decreases n - k,
    {
        match hex_digit(t[k]) {
            Some(d) => {
                proof {
                    let p = t@.take(k + 1);
                    assert(p.drop_last() =~= t@.take(k as int));
                    assert(p.last() == t@[k as int]);
                }
                v = v * 16 + d;
                bound = bound * 16;
                k = k + 1;
            },
            None => {
                return None;
            },
        }
    }
    assert(t@.take(n as int) =~= t@);
    Some(v)
}

fn parse_dec_field(t: &Vec<char>, max: u32) -> (r: Option<u32>)
    ensures
        match r {
            Some(v) => dec_field(t@, max as nat) == Some(v as nat) && v <= max,
            None => dec_field(t@, max as nat) is None,
        },
{
    let n = t.len();
    if n < 1 || n > 3 {
        return None;
    }
    let mut v: u32 = 0;
    let mut bound: u32 = 1;
    let mut k: usize = 0;
    while k < n
        invariant
            n == t@.len(),
            1 <= n <= 3,
            k <= n,
            v == digits_value(t@.take(k as int)),
            v < bound,
            bound == if k == 0 { 1u32 } else if k == 1 { 10u32 } else if k == 2 { 100u32 } else { 1000u32 },
            forall|m: int| 0 <= m < k ==> is_digit(#[trigger] t@[m]),
        decreases n - k,
    {
        let c = t[k];
        if !('0' <= c && c <= '9') {
            return None;
        }
        proof {
            let p = t@.take(k + 1);
            assert(p.drop_last() =~= t@.take(k as int));
            assert(p.last() == t@[k as int]);
        }
        v = v * 10 + (c as u32 - '0' as u32);
        bound = bound * 10;
        k = k + 1;
    }
    assert(t@.take(n as int) =~= t@);
    if v <= max {
        Some(v)
    } else {
        None
    }
}

fn parse_groups(pieces: &Vec<Vec<char>>) -> (r: Option<Vec<u32>>)
    ensures
        opt_nats(r) == group_values(char_vecs(pieces@)),
        r is Some ==> forall|k: int| 0 <= k < r->Some_0@.len() ==> #[trigger] r->Some_0@[k] < 65536,
{
    let ghost ps = char_vecs(pieces@);
    let mut out: Vec<u32> = Vec::new();
    let mut i: usize = 0;
    while i < pieces.len()
        invariant
            i <= ps.len(),
            ps == char_vecs(pieces@),
            group_values(ps.take(i as int)) == Some(nats(out@)),
            forall|k: int| 0 <= k < out@.len() ==> #[trigger] out@[k] < 65536,
        decreases ps.len() - i,
    {
        proof {
            let p = ps.take(i + 1);
            assert(p.drop_last() =~= ps.take(i as int));
            assert(p.last() == pieces@[i as int]@);
        }
        match parse_group(&pieces[i]) {
            Some(g) => {
                let ghost before = nats(out@);
                out.push(g);
                assert(nats(out@) =~= before.push(g as nat));
            },
            None => {
                proof { lemma_group_values_fail(ps, i as int + 1); }
                return None;
            },
        }
        i = i + 1;
    }
    assert(ps.take(ps.len() as int) =~= ps);
    Some(out)
}

proof fn lemma_group_values_fail(ps: Seq<Seq<char>>, n: int)
    requires
        0 <= n <= ps.len(),
        group_values(ps.take(n)) is None,
    ensures
        group_values(ps) is None,
    decreases ps.len() - n,
{
    if n < ps.len() {
        let p = ps.take(n + 1);
        assert(p.drop_last() =~= ps.take(n));
        lemma_group_values_fail(ps, n + 1);
    } else {
        assert(ps.take(n) =~= ps);
    }
}

proof fn lemma_octet_values_fail(ps: Seq<Seq<char>>, n: int)
    requires
        0 <= n <= ps.len(),
        octet_values(ps.take(n)) is None,
    ensures
        octet_values(ps) is None,
    decreases ps.len() - n,
{
    if n < ps.len() {
        let p = ps.take(n + 1);
        assert(p.drop_last() =~= ps.take(n));
        lemma_octet_values_fail(ps, n + 1);
    } else {
        assert(ps.take(n) =~= ps);
    }
}

/// The four octets of the IPv4 address `s`.
fn parse_v4(s: &Vec<char>) -> (r: Option<Vec<u32>>)
    ensures
        opt_nats(r) == v4_address(s@),
        r is Some ==> r->Some_0@.len() == 4 && forall|k: int| 0 <= k < 4 ==> #[trigger] r->Some_0@[k] <= 255,
{
    let pieces = split_chars(s, '.');
    if pieces.len() != 4 {
        return None;
    }
    let ghost ps = char_vecs(pieces@);
    let mut out: Vec<u32> = Vec::new();
    let mut i: usize = 0;
    while i < pieces.len()
        invariant
            i <= ps.len(),
            ps == char_vecs(pieces@),
            ps == split_on(s@, '.'),
            octet_values(ps.take(i as int)) == Some(nats(out@)),
            out@.len() == i,
            forall|k: int| 0 <= k < out@.len() ==> #[trigger] out@[k] <= 255,
        decreases ps.len() - i,
    {
        proof {
            let p = ps.take(i + 1);
            assert(p.drop_last() =~= ps.take(i as int));
            assert(p.last() == pieces@[i as int]@);
        }
        match parse_dec_field(&pieces[i], 255) {
            Some(o) => {
                let ghost before = nats(out@);
                out.push(o);
                assert(nats(out@) =~= before.push(o as nat));
            },
            None => {
                proof { lemma_octet_values_fail(ps, i as int + 1); }
                return None;
            },
        }
        i = i + 1;
    }
    assert(ps.take(ps.len() as int) =~= ps);
    Some(out)
}

fn find_double_colon(s: &Vec<char>) -> (r: usize)
    ensures
        r == first_double_colon(s@),
        r <= s@.len(),
        r < s@.len() ==> r + 2 <= s@.len(),
{
    let n = s.len();
    let mut i: usize = 0;
    assert(s@.skip(0) =~= s@);
    while n >= 2 && i < n - 1
        invariant
            n == s@.len(),
            i <= n,
            first_double_colon(s@) == i + first_double_colon(s@.skip(i as int)),
        decreases n - i,
    {
        let ghost t = s@.skip(i as int);
        assert(t[0] == s@[i as int] && t[1] == s@[i + 1]);
        if s[i] == ':' && s[i + 1] == ':' {
            return i;
        }
        assert(t.drop_first() =~= s@.skip(i + 1));
        i = i + 1;
    }
    assert(s@.skip(i as int).len() < 2);
    n
}

fn parse_side(t: &Vec<char>) -> (r: Option<Vec<u32>>)
    ensures
        opt_nats(r) == side_groups(t@),
        r is Some ==> forall|k: int| 0 <= k < r->Some_0@.len() ==> #[trigger] r->Some_0@[k] < 65536,
{
    if t.len() == 0 {
        let out: Vec<u32> = Vec::new();
        assert(nats(out@) =~= Seq::<nat>::empty());
        Some(out)
    } else {
        parse_groups(&split_chars(t, ':'))
    }
}

fn sub_vec(v: &Vec<char>, from: usize, to: usize) -> (r: Vec<char>)
    requires
        from <= to <= v@.len(),
    ensures
        r@ == v@.subrange(from as int, to as int),
{
    crate::text::copy_range(v, from, to)
}

/// The eight groups of the IPv6 address `s`.
fn parse_v6(s: &Vec<char>) -> (r: Option<Vec<u32>>)
    ensures
        opt_nats(r) == v6_address(s@),
        r is Some ==> r->Some_0@.len() == 8 && forall|k: int| 0 <= k < 8 ==> #[trigger] r->Some_0@[k] < 65536,
{
    let p = find_double_colon(s);
    if p < s.len() {
        let left = sub_vec(s, 0, p);
        let right = sub_vec(s, p + 2, s.len());
        assert(left@ =~= s@.take(p as int));
        assert(right@ =~= s@.skip(p + 2));
        let a = match parse_side(&left) {
            Some(a) => a,
            None => return None,
        };
        let b = match parse_side(&right) {
            Some(b) => b,
            None => return None,
        };
        if a.len() > 7 || b.len() > 7 - a.len() {
            return None;
        }
        let ghost na = nats(a@);
        let ghost nb = nats(b@);
        let zeros: usize = 8 - a.len() - b.len();
        let mut out: Vec<u32> = Vec::new();
        let mut i: usize = 0;
        while i < a.len()
            invariant
                i <= a@.len(),
                nats(out@) == na.take(i as int),
                out@.len() == i,
                na == nats(a@),
                forall|k: int| 0 <= k < out@.len() ==> #[trigger] out@[k] < 65536,
                forall|k: int| 0 <= k < a@.len() ==> #[trigger] a@[k] < 65536,
            decreases a@.len() - i,
        {
            out.push(a[i]);
            assert(nats(out@) =~= na.take(i + 1));
            i = i + 1;
        }
        let mut z: usize = 0;
        while z < zeros
            invariant
                z <= zeros,
                zeros == 8 - a@.len() - b@.len(),
                nats(out@) == na + Seq::new(z as nat, |i: int| 0nat),
                out@.len() == a@.len() + z,
                forall|k: int| 0 <= k < out@.len() ==> #[trigger] out@[k] < 65536,
            decreases zeros - z,
        {
            let ghost before = nats(out@);
            out.push(0);
            assert(nats(out@) =~= before.push(0nat));
            assert(Seq::new((z + 1) as nat, |i: int| 0nat) =~= Seq::new(z as nat, |i: int| 0nat).push(0nat));
            assert(nats(out@) =~= na + Seq::new((z + 1) as nat, |i: int| 0nat));
            z = z + 1;
        }
        let ghost mid = nats(out@);
        let mut j: usize = 0;
        while j < b.len()
            invariant
                j <= b@.len(),
                nats(out@) == mid + nb.take(j as int),
                out@.len() == mid.len() + j,
                mid.len() == a@.len() + zeros,
                nb == nats(b@),
                forall|k: int| 0 <= k < out@.len() ==> #[trigger] out@[k] < 65536,
                forall|k: int| 0 <= k < b@.len() ==> #[trigger] b@[k] < 65536,
            decreases b@.len() - j,
        {
            let ghost before = nats(out@);
            out.push(b[j]);
            assert(nats(out@) =~= before.push(nb[j as int]));
            assert(nb.take(j + 1) =~= nb.take(j as int).push(nb[j as int]));
            assert(nats(out@) =~= mid + nb.take(j + 1));
            j = j + 1;
        }
        assert(nb.take(b@.len() as int) =~= nb);
        Some(out)
    } else {
        let pieces = split_chars(s, ':');
        match parse_groups(&pieces) {
            Some(g) => {
                if g.len() == 8 {
                    Some(g)
                } else {
                    None
                }
            },
            None => None,
        }
    }
}

// ---------------------------------------------------------------------------
// Writing, executably
// ---------------------------------------------------------------------------

fn hex_digit_char(d: u32) -> (c: char)
    requires
        d < 16,
    ensures
        c == hex_char(d as nat),
{
    if d < 10 {
        if d == 0 { '0' } else if d == 1 { '1' } else if d == 2 { '2' } else if d == 3 { '3' } else if d == 4 {
            '4'
        } else if d == 5 { '5' } else if d == 6 { '6' } else if d == 7 { '7' } else if d == 8 { '8' } else { '9' }
    } else if d == 10 {
        'a'
    } else if d == 11 {
        'b'
    } else if d == 12 {
        'c'
    } else if d == 13 {
        'd'
    } else if d == 14 {
        'e'
    } else {
        'f'
    }
}

fn push_hex(s: &mut String, n: u32)
    ensures
        final(s)@ == old(s)@ + hex_text(n as nat),
    decreases n,
{
    if n >= 16 {
        push_hex(s, n / 16);
    }
    push_char(s, hex_digit_char(n % 16));
    assert(final(s)@ =~= old(s)@ + hex_text(n as nat));
}

/// Appends `g[from..to]`, groups separated by colons.
fn push_groups(s: &mut String, g: &Vec<u32>, from: usize, to: usize)
    requires
        from <= to <= g@.len(),
    ensures
        final(s)@ == old(s)@ + joined_groups(nats(g@).subrange(from as int, to as int)),
{
    let ghost start = old(s)@;
    let ghost ng = nats(g@);
    let mut i: usize = from;
    assert(ng.subrange(from as int, from as int) =~= Seq::<nat>::empty());
    while i < to
        invariant
            from <= i <= to,
            to <= g@.len(),
            ng == nats(g@),
            s@ == start + joined_groups(ng.subrange(from as int, i as int)),
        decreases to - i,
    {
        let ghost q = ng.subrange(from as int, i + 1);
        assert(q.drop_last() =~= ng.subrange(from as int, i as int));
        assert(q.last() == g@[i as int] as nat);
        if i > from {
            push_char(s, ':');
            assert(":"@ =~= seq![':']) by { reveal_strlit(":"); }
        } else {
            assert(q.len() == 1);
        }
        push_hex(s, g[i]);
        i = i + 1;
        assert(s@ =~= start + joined_groups(ng.subrange(from as int, i as int)));
    }
}

/// How many zero groups follow one another in `g` from index `i` on.
fn zero_run_at(g: &Vec<u32>, i: usize) -> (r: usize)
    requires
        i <= g@.len(),
    ensures
        r == zero_run(nats(g@), i as int),
        i + r <= g@.len(),
{
    let ghost ng = nats(g@);
    let mut j: usize = i;
    while j < g.len() && g[j] == 0
        invariant
            i <= j <= g@.len(),
            ng == nats(g@),
            zero_run(ng, i as int) == (j - i) + zero_run(ng, j as int),
        decreases g@.len() - j,
    {
        j = j + 1;
    }
    j - i
}

/// Where the longest run of zero groups of `g` starts, and its length.
fn longest_run(g: &Vec<u32>) -> (r: (usize, usize))
    ensures
        r.0 as int == longest_zero_run(nats(g@), g@.len() as int).0,
        r.1 as nat == longest_zero_run(nats(g@), g@.len() as int).1,
        r.0 + r.1 <= g@.len(),
{
    let ghost ng = nats(g@);
    let mut best: (usize, usize) = (0, 0);
    let mut n: usize = 0;
    while n < g.len()
        invariant
            n <= g@.len(),
            ng == nats(g@),
            best.0 as int == longest_zero_run(ng, n as int).0,
            best.1 as nat == longest_zero_run(ng, n as int).1,
            best.0 + best.1 <= g@.len(),
        decreases g@.len() - n,
    {
        let run = zero_run_at(g, n);
        if run > best.1 {
            best = (n, run);
        }
        n = n + 1;
    }
    best
}

fn v6_string(g: &Vec<u32>) -> (r: String)
    ensures
        r@ == v6_text(nats(g@)),
{
    let ghost ng = nats(g@);
    let best = longest_run(g);
    let start = best.0;
    let len = best.1;
    let glen = g.len();
    let after: usize = start + len;
    let mut r = String::new();
    if len >= 2 {
        push_groups(&mut r, g, 0, start);
        push_char(&mut r, ':');
        push_char(&mut r, ':');
        push_groups(&mut r, g, after, g.len());
        proof {
            reveal_strlit("::");
            assert(ng.subrange(0, start as int) =~= ng.take(start as int));
            assert(ng.subrange(start + len, g@.len() as int) =~= ng.skip(start + len));
        }
        assert(r@ =~= v6_text(ng));
    } else {
        push_groups(&mut r, g, 0, g.len());
        assert(ng.subrange(0, g@.len() as int) =~= ng);
        assert(r@ =~= v6_text(ng));
    }
    r
}

fn v4_string(o: &Vec<u32>) -> (r: String)
    requires
        o@.len() == 4,
    ensures
        r@ == v4_text(nats(o@)),
{
    let mut r = String::new();
    push_decimal(&mut r, o[0] as u128);
    push_char(&mut r, '.');
    push_decimal(&mut r, o[1] as u128);
    push_char(&mut r, '.');
    push_decimal(&mut r, o[2] as u128);
    push_char(&mut r, '.');
    push_decimal(&mut r, o[3] as u128);
    proof { reveal_strlit("."); }
    assert(r@ =~= v4_text(nats(o@)));
    r
}

fn public_v4(o: &Vec<u32>) -> (b: bool)
    requires
        o@.len() == 4,
    ensures
        b == is_public_v4(nats(o@)),
{
    let a = o[0];
    let b = o[1];
    let c = o[2];
    !(a == 0 || a == 10 || a == 127 || a >= 224 || (a == 100 && 64 <= b && b <= 127) || (a == 169 && b == 254)
        || (a == 172 && 16 <= b && b <= 31) || (a == 192 && b == 0 && (c == 0 || c == 2)) || (a == 192 && b
        == 168) || (a == 198 && (b == 18 || b == 19)) || (a == 198 && b == 51 && c == 100) || (a == 203 && b == 0
        && c == 113))
}

fn public_v6(g: &Vec<u32>) -> (b: bool)
    requires
        g@.len() == 8,
    ensures
        b == is_public_v6(nats(g@)),
{
    let a = g[0];
    let b = g[1];
    !(a < 0x100 || (a == 0x100 && b == 0 && g[2] == 0 && g[3] == 0) || (a == 0x2001 && b == 0xdb8) || (a == 0x3fff
        && b < 0x1000) || (0xfc00 <= a && a <= 0xfdff) || (0xfe80 <= a && a <= 0xfebf) || a >= 0xff00)
}

/// The prefix `s` in canonical form: the address written as RFC 5952 (IPv6)
/// or in dotted decimal without leading zeros (IPv4), `/` and the length;
/// none where `s` is not a prefix in public use.
pub fn normalize_prefix(s: &Vec<char>) -> (r: Option<String>)
    ensures
        crate::text::opt_view(r) == normalized_prefix(s@),
{
    let parts = split_chars(s, '/');
    assert(char_vecs(parts@) == split_on(s@, '/'));
    if parts.len() != 2 {
        return None;
    }
    assert(parts@[0]@ == split_on(s@, '/')[0]);
    assert(parts@[1]@ == split_on(s@, '/')[1]);
    proof { reveal_strlit("/"); }
    match parse_v4(&parts[0]) {
        Some(o) => {
            match parse_dec_field(&parts[1], 32) {
                Some(l) => {
                    if public_v4(&o) {
                        let mut r = v4_string(&o);
                        let ghost t = r@;
                        push_char(&mut r, '/');
                        push_decimal(&mut r, l as u128);
                        assert(r@ =~= t + "/"@ + decimal(l as nat));
                        Some(r)
                    } else {
                        None
                    }
                },
                None => None,
            }
        },
        None => {
            match parse_v6(&parts[0]) {
                Some(g) => {
                    match parse_dec_field(&parts[1], 128) {
                        Some(l) => {
                            if public_v6(&g) {
                                let mut r = v6_string(&g);
                                let ghost t = r@;
                                push_char(&mut r, '/');
                                push_decimal(&mut r, l as u128);
                                assert(r@ =~= t + "/"@ + decimal(l as nat));
                                Some(r)
                            } else {
                                None
                            }
                        },
                        None => None,
                    }
                },
                None => None,
            }
        },
    }
}

// ---------------------------------------------------------------------------
// Public use, by address value
// ---------------------------------------------------------------------------

/// The 32-bit value of the IPv4 address with octets `o`.
pub open spec fn v4_value(o: Seq<nat>) -> int {
    (o[0] * 16777216 + o[1] * 65536 + o[2] * 256 + o[3]) as int
}

/// Whether the 32-bit address `v` lies in one of the blocks of the IPv4
/// special-purpose registry that are not routed on the Internet: 0/8, 10/8,
/// 100.64/10, 127/8, 169.254/16, 172.16/12, 192.0.0/24, 192.0.2/24,
/// 192.168/16, 198.18/15, 198.51.100/24, 203.0.113/24 and 224/3.
pub open spec fn v4_in_special_block(v: int) -> bool {
    ||| v < 0x0100_0000
    ||| 0x0A00_0000 <= v < 0x0B00_0000
    ||| 0x6440_0000 <= v < 0x6480_0000
    ||| 0x7F00_0000 <= v < 0x8000_0000
    ||| 0xA9FE_0000 <= v < 0xA9FF_0000
    ||| 0xAC10_0000 <= v < 0xAC20_0000
    ||| 0xC000_0000 <= v < 0xC000_0100
    ||| 0xC000_0200 <= v < 0xC000_0300
    ||| 0xC0A8_0000 <= v < 0xC0A9_0000
    ||| 0xC612_0000 <= v < 0xC614_0000
    ||| 0xC633_6400 <= v < 0xC633_6500
    ||| 0xCB00_7100 <= v < 0xCB00_7200
    ||| 0xE000_0000 <= v
}

/// An IPv4 address is in public use exactly when its 32-bit value lies
/// outside every special-purpose block.
pub proof fn law_public_v4_by_address(o: Seq<nat>)
    requires
        o.len() == 4,
        forall|k: int| 0 <= k < 4 ==> #[trigger] o[k] <= 255,
    ensures
        is_public_v4(o) == !v4_in_special_block(v4_value(o)),
{
    let (a, b, c, d) = (o[0], o[1], o[2], o[3]);
    assert(o[0] <= 255 && o[1] <= 255 && o[2] <= 255 && o[3] <= 255);
    assert(is_public_v4(o) == !v4_in_special_block((a * 16777216 + b * 65536 + c * 256 + d) as int)) by (nonlinear_arith)
        requires
            a <= 255,
            b <= 255,
            c <= 255,
            d <= 255,
            is_public_v4(o) == !{
                ||| a == 0 || a == 10 || a == 127 || a >= 224
                ||| a == 100 && 64 <= b && b <= 127
                ||| a == 169 && b == 254
                ||| a == 172 && 16 <= b && b <= 31
                ||| a == 192 && b == 0 && (c == 0 || c == 2)
                ||| a == 192 && b == 168
                ||| a == 198 && (b == 18 || b == 19)
                ||| a == 198 && b == 51 && c == 100
                ||| a == 203 && b == 0 && c == 113
            },
    ;
}

/// The top 32 bits of the IPv6 address with groups `g`.
pub open spec fn v6_top(g: Seq<nat>) -> int {
    (g[0] * 65536 + g[1]) as int
}

/// Whether the IPv6 address with groups `g` lies in one of the blocks that
/// are not routed on the Internet: ::/8, 100::/64, 2001:db8::/32, 3fff::/20,
/// fc00::/7, fe80::/10 and ff00::/8.
pub open spec fn v6_in_special_block(g: Seq<nat>) -> bool {
    let w = v6_top(g);
    ||| w < 0x0100_0000
    ||| w == 0x0100_0000 && g[2] == 0 && g[3] == 0
    ||| w == 0x2001_0DB8
    ||| 0x3FFF_0000 <= w < 0x3FFF_1000
    ||| 0xFC00_0000 <= w < 0xFE00_0000
    ||| 0xFE80_0000 <= w < 0xFEC0_0000
    ||| 0xFF00_0000 <= w
}

/// An IPv6 address is in public use exactly when it lies outside every
/// special-purpose block.
pub proof fn law_public_v6_by_address(g: Seq<nat>)
    requires
        g.len() == 8,
        forall|k: int| 0 <= k < 8 ==> #[trigger] g[k] < 65536,
    ensures
        is_public_v6(g) == !v6_in_special_block(g),
{
    let (a, b) = (g[0], g[1]);
    assert(g[0] < 65536 && g[1] < 65536);
    assert(is_public_v6(g) == !v6_in_special_block(g)) by (nonlinear_arith)
        requires
            a < 65536,
            b < 65536,
            a == g[0],
            b == g[1],
            v6_top(g) == a * 65536 + b,
            is_public_v6(g) == !{
                ||| a < 0x100
                ||| a == 0x100 && b == 0 && g[2] == 0 && g[3] == 0
                ||| a == 0x2001 && b == 0xdb8
                ||| a == 0x3fff && b < 0x1000
                ||| 0xfc00 <= a && a <= 0xfdff
                ||| 0xfe80 <= a && a <= 0xfebf
                ||| a >= 0xff00
            },
            v6_in_special_block(g) == {
                let w = a * 65536 + b;
                ||| w < 0x0100_0000
                ||| w == 0x0100_0000 && g[2] == 0 && g[3] == 0
                ||| w == 0x2001_0DB8
                ||| 0x3FFF_0000 <= w < 0x3FFF_1000
                ||| 0xFC00_0000 <= w < 0xFE00_0000
                ||| 0xFE80_0000 <= w < 0xFEC0_0000
                ||| 0xFF00_0000 <= w
            },
    ;
}

} // verus!
