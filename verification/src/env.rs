//! Machine memory characteristics: cache sizes and RAM, with conservative
//! defaults for what could not be read.
use vstd::prelude::*;

verus! {

/// Cache line, cache and RAM sizes, in bytes.
#[derive(Debug, Clone, Copy)]
pub struct Memory {
    pub cache_line: usize,
    pub l1: usize,
    pub l2: usize,
    pub l3: usize,
    pub total_ram: u64,
}

/// Cache line size assumed when it cannot be read.
pub const DEFAULT_CACHE_LINE: usize = 64;
/// L1 data cache size assumed when it cannot be read.
pub const DEFAULT_L1: usize = 32768;
/// L2 cache size assumed when it cannot be read.
pub const DEFAULT_L2: usize = 262144;
/// L3 cache size assumed when it cannot be read.
pub const DEFAULT_L3: usize = 4194304;
/// RAM size assumed when it cannot be read.
pub const DEFAULT_TOTAL_RAM: u64 = 1073741824;

/// `probe`, or `default` when nothing was read.
pub open spec fn or_default<T>(probe: Option<T>, default: T) -> T {
    match probe {
        Some(v) => v,
        None => default,
    }
}

impl Memory {
    /// The sizes read from the machine, each replaced by its default when it
    /// could not be read.
    pub fn from_probes(
        cache_line: Option<usize>,
        l1: Option<usize>,
        l2: Option<usize>,
        l3: Option<usize>,
        total_ram: Option<u64>,
    ) -> (m: Self)
        ensures
            m.cache_line == or_default(cache_line, DEFAULT_CACHE_LINE),
            m.l1 == or_default(l1, DEFAULT_L1),
            m.l2 == or_default(l2, DEFAULT_L2),
            m.l3 == or_default(l3, DEFAULT_L3),
            m.total_ram == or_default(total_ram, DEFAULT_TOTAL_RAM),
    {
        Memory {
            cache_line: match cache_line {
                Some(v) => v,
                None => DEFAULT_CACHE_LINE,
            },
            l1: match l1 {
                Some(v) => v,
                None => DEFAULT_L1,
            },
            l2: match l2 {
                Some(v) => v,
                None => DEFAULT_L2,
            },
            l3: match l3 {
                Some(v) => v,
                None => DEFAULT_L3,
            },
            total_ram: match total_ram {
                Some(v) => v,
                None => DEFAULT_TOTAL_RAM,
            },
        }
    }
}

/// ASCII whitespace.
pub open spec fn is_space(b: u8) -> bool {
    b == 0x20 || b == 0x09 || b == 0x0a || b == 0x0b || b == 0x0c || b == 0x0d
}

pub open spec fn is_digit(b: u8) -> bool {
    0x30 <= b <= 0x39
}

/// The `n` bytes of `s` from `i` are the UTF-8 encoding of a whitespace
/// character (Unicode White_Space, which `str::trim` removes): ASCII
/// whitespace, U+0085, U+00A0, U+1680, U+2000 to U+200A, U+2028, U+2029,
/// U+202F, U+205F or U+3000.
pub open spec fn ws_at(s: Seq<u8>, i: int, n: int) -> bool {
    if n == 1 {
        is_space(s[i])
    } else if n == 2 {
        s[i] == 0xc2 && (s[i + 1] == 0x85 || s[i + 1] == 0xa0)
    } else if n == 3 {
        ||| s[i] == 0xe1 && s[i + 1] == 0x9a && s[i + 2] == 0x80
        ||| s[i] == 0xe2 && s[i + 1] == 0x80 && ((0x80 <= s[i + 2] && s[i + 2] <= 0x8a) || s[i + 2] == 0xa8
            || s[i + 2] == 0xa9 || s[i + 2] == 0xaf)
        ||| s[i] == 0xe2 && s[i + 1] == 0x81 && s[i + 2] == 0x9f
        ||| s[i] == 0xe3 && s[i + 1] == 0x80 && s[i + 2] == 0x80
    } else {
        false
    }
}

/// Length of the whitespace character that starts at `i`; 0 when none does.
pub open spec fn lead_space(s: Seq<u8>, i: int) -> int {
    if 0 <= i && i + 1 <= s.len() && ws_at(s, i, 1) {
        1
    } else if 0 <= i && i + 2 <= s.len() && ws_at(s, i, 2) {
        2
    } else if 0 <= i && i + 3 <= s.len() && ws_at(s, i, 3) {
        3
    } else {
        0
    }
}

/// Length of the whitespace character that ends at `j` and starts at or
/// after `lo`; 0 when none does.
pub open spec fn tail_space(s: Seq<u8>, lo: int, j: int) -> int {
    if lo <= j - 1 && j <= s.len() && ws_at(s, j - 1, 1) {
        1
    } else if lo <= j - 2 && j <= s.len() && ws_at(s, j - 2, 2) {
        2
    } else if lo <= j - 3 && j <= s.len() && ws_at(s, j - 3, 3) {
        3
    } else {
        0
    }
}

/// Index of the first byte of `s` at or after `i` that does not begin a
/// whitespace character.
pub open spec fn skip_space(s: Seq<u8>, i: int) -> int
    decreases s.len() - i,
{
    if i < 0 || i >= s.len() || lead_space(s, i) == 0 { i } else { skip_space(s, i + lead_space(s, i)) }
}

/// End of `s[i..j]` once whitespace characters at its end are removed.
pub open spec fn trim_end(s: Seq<u8>, i: int, j: int) -> int
    decreases j - i,
{
    if j <= i || tail_space(s, i, j) == 0 { j } else { trim_end(s, i, j - tail_space(s, i, j)) }
}

/// `s` with surrounding whitespace removed, as `str::trim` does on UTF-8.
pub open spec fn trimmed(s: Seq<u8>) -> Seq<u8> {
    let i = skip_space(s, 0);
    s.subrange(i, trim_end(s, i, s.len() as int))
}

/// Length of the run of digits at the start of `s`.
pub open spec fn digit_run(s: Seq<u8>) -> nat
    decreases s.len(),
{
    if s.len() == 0 || !is_digit(s[0]) { 0 } else { 1 + digit_run(s.drop_first()) }
}

/// Value of the decimal digits `d`.
pub open spec fn decimal(d: Seq<u8>) -> nat
    decreases d.len(),
{
    if d.len() == 0 { 0 } else { decimal(d.drop_last()) * 10 + (d.last() - 0x30) as nat }
}

/// Multiplier of a size suffix (already trimmed): none, `K`, `M` or `G`, in
/// either case.
pub open spec fn suffix_multiplier(x: Seq<u8>) -> Option<nat> {
    if x.len() == 0 {
        Some(1)
    } else if x.len() == 1 && (x[0] == 0x4b || x[0] == 0x6b) {
        Some(1024)
    } else if x.len() == 1 && (x[0] == 0x4d || x[0] == 0x6d) {
        Some(1024 * 1024)
    } else if x.len() == 1 && (x[0] == 0x47 || x[0] == 0x67) {
        Some(1024 * 1024 * 1024)
    } else {
        None
    }
}

/// The number and multiplier of a size token such as `32K`, `256K` or `2M`
/// (surrounding whitespace allowed), when it is one.
pub open spec fn size_token(s: Seq<u8>) -> Option<(nat, nat)> {
    let t = trimmed(s);
    let n = digit_run(t);
    if n == 0 || decimal(t.take(n as int)) > usize::MAX {
        None
    } else {
        match suffix_multiplier(trimmed(t.skip(n as int))) {
            Some(m) => Some((decimal(t.take(n as int)), m)),
            None => None,
        }
    }
}

/// Number and multiplier of a size token.
fn size_token_parts(s: &[u8]) -> (r: Option<(usize, usize)>)
    ensures
        match size_token(s@) {
            Some((n, m)) => r == Some((n as usize, m as usize)),
            None => r is None,
        },
{
    let (start, end) = trim_bounds(s, 0, s.len());
    let mut i = start;
    let mut value: usize = 0;
    let mut overflow = false;
    proof {
        assert(s@.subrange(start as int, start as int) =~= Seq::<u8>::empty());
    }
    while i < end && is_ascii_digit(s[i])
        invariant
            start <= i <= end <= s@.len(),
            forall|k: int| start <= k < i ==> is_digit(#[trigger] s@[k]),
            !overflow ==> value == decimal(s@.subrange(start as int, i as int)),
            overflow ==> decimal(s@.subrange(start as int, i as int)) > usize::MAX,
        decreases end - i,
    {
        let digit = (s[i] - 0x30u8) as usize;
        proof {
            let d = s@.subrange(start as int, i + 1);
            assert(d.drop_last() =~= s@.subrange(start as int, i as int));
            lemma_decimal_grows(s@.subrange(start as int, i as int), s@[i as int]);
        }
        if !overflow {
            if value > (usize::MAX - digit) / 10 {
                overflow = true;
            } else {
                value = value * 10 + digit;
            }
        }
        i = i + 1;
    }
    proof {
        lemma_trimmed(s@, start as int, end as int);
        let t = trimmed(s@);
        lemma_digit_run(t, i - start);
        assert(t.take(i - start) =~= s@.subrange(start as int, i as int));
    }
    if i == start || overflow {
        return None;
    }
    let (rs, re) = trim_bounds(s, i, end);
    proof {
        let t = trimmed(s@);
        let n = (i - start) as int;
        lemma_trimmed_sub(s@, start as int, end as int, i as int, rs as int, re as int);
        assert(trimmed(t.skip(n)) =~= s@.subrange(rs as int, re as int));
    }
    let mult: usize = if re == rs {
        1
    } else if re == rs + 1 && (s[rs] == 0x4bu8 || s[rs] == 0x6bu8) {
        1024
    } else if re == rs + 1 && (s[rs] == 0x4du8 || s[rs] == 0x6du8) {
        1048576
    } else if re == rs + 1 && (s[rs] == 0x47u8 || s[rs] == 0x67u8) {
        1073741824
    } else {
        return None;
    };
    Some((value, mult))
}

/// Size in bytes written as a decimal number with an optional `K`, `M` or
/// `G` suffix (powers of 1024), as cache sizes are listed by the kernel.
/// Excluded: a size that does not fit in `usize` (see [`size_token_fits`]).
pub fn parse_size_token(s: &[u8]) -> (r: Option<usize>)
    requires
        size_token(s@) matches Some((n, m)) ==> n * m <= usize::MAX,
    ensures
        match size_token(s@) {
            Some((n, m)) => r == Some((n * m) as usize),
            None => r is None,
        },
{
    match size_token_parts(s) {
        Some((value, mult)) => Some(value * mult),
        None => None,
    }
}

/// Whether the size `s` names, if it names one, fits in `usize`: the
/// condition under which [`parse_size_token`] may be called.
pub fn size_token_fits(s: &[u8]) -> (b: bool)
    ensures
        b == (size_token(s@) matches Some((n, m)) ==> n * m <= usize::MAX),
{
    match size_token_parts(s) {
        Some((value, mult)) => value.checked_mul(mult).is_some(),
        None => true,
    }
}

fn is_ascii_digit(b: u8) -> (r: bool)
    ensures
        r == is_digit(b),
{
    0x30u8 <= b && b <= 0x39u8
}

fn is_ascii_space(b: u8) -> (r: bool)
    ensures
        r == is_space(b),
{
    b == 0x20u8 || b == 0x09u8 || b == 0x0au8 || b == 0x0bu8 || b == 0x0cu8 || b == 0x0du8
}

/// Whether the bytes `a`, `b`, `c` encode a three-byte whitespace character.
fn ws3(a: u8, b: u8, c: u8) -> (r: bool)
    ensures
        r == ws_at(seq![a, b, c], 0, 3),
{
    (a == 0xe1u8 && b == 0x9au8 && c == 0x80u8) || (a == 0xe2u8 && b == 0x80u8 && ((0x80u8 <= c && c <= 0x8au8)
        || c == 0xa8u8 || c == 0xa9u8 || c == 0xafu8)) || (a == 0xe2u8 && b == 0x81u8 && c == 0x9fu8) || (a == 0xe3u8
        && b == 0x80u8 && c == 0x80u8)
}

/// [`lead_space`] of `s[..to]` at `i`.
fn lead_space_len(s: &[u8], i: usize, to: usize) -> (n: usize)
    requires
        i <= to <= s@.len(),
    ensures
        n == lead_space(s@.subrange(0, to as int), i as int),
{
    let ghost p = s@.subrange(0, to as int);
    if to - i >= 1 && is_ascii_space(s[i]) {
        1
    } else if to - i >= 2 && s[i] == 0xc2u8 && (s[i + 1] == 0x85u8 || s[i + 1] == 0xa0u8) {
        2
    } else if to - i >= 3 && ws3(s[i], s[i + 1], s[i + 2]) {
        assert(ws_at(p, i as int, 3) == ws_at(seq![s[i as int], s[i + 1], s[i + 2]], 0, 3));
        3
    } else {
        proof {
            if i + 3 <= to {
                assert(ws_at(p, i as int, 3) == ws_at(seq![s@[i as int], s@[i + 1], s@[i + 2]], 0, 3));
            }
        }
        0
    }
}

/// [`tail_space`] of `s` for the end `j` and the floor `lo`.
fn tail_space_len(s: &[u8], lo: usize, j: usize) -> (n: usize)
    requires
        lo <= j <= s@.len(),
    ensures
        n == tail_space(s@, lo as int, j as int),
{
    if j - lo >= 1 && is_ascii_space(s[j - 1]) {
        1
    } else if j - lo >= 2 && s[j - 2] == 0xc2u8 && (s[j - 1] == 0x85u8 || s[j - 1] == 0xa0u8) {
        2
    } else if j - lo >= 3 && ws3(s[j - 3], s[j - 2], s[j - 1]) {
        assert(ws_at(s@, j - 3, 3) == ws_at(seq![s[j - 3], s[j - 2], s[j - 1]], 0, 3));
        3
    } else {
        proof {
            if lo + 3 <= j {
                assert(ws_at(s@, j - 3, 3) == ws_at(seq![s@[j - 3], s@[j - 2], s@[j - 1]], 0, 3));
            }
        }
        0
    }
}

/// Bounds of `s[from..to]` with surrounding whitespace removed.
fn trim_bounds(s: &[u8], from: usize, to: usize) -> (r: (usize, usize))
    requires
        from <= to <= s@.len(),
    ensures
        r.0 == skip_space(s@.subrange(0, to as int), from as int),
        r.1 == trim_end(s@, r.0 as int, to as int),
        from <= r.0 <= r.1 <= to,
{
    let ghost p = s@.subrange(0, to as int);
    let mut a = from;
    loop
        invariant
            from <= a <= to <= s@.len(),
            p == s@.subrange(0, to as int),
            skip_space(p, a as int) == skip_space(p, from as int),
        ensures
            from <= a <= to,
            skip_space(p, from as int) == a,
        decreases to - a,
    {
        if a >= to {
            break;
        }
        let n = lead_space_len(s, a, to);
        if n == 0 {
            break;
        }
        a = a + n;
    }
    let mut b = to;
    loop
        invariant
            a <= b <= to <= s@.len(),
            trim_end(s@, a as int, b as int) == trim_end(s@, a as int, to as int),
        ensures
            a <= b <= to,
            trim_end(s@, a as int, to as int) == b,
        decreases b - a,
    {
        if b <= a {
            break;
        }
        let n = tail_space_len(s, a, b);
        if n == 0 {
            break;
        }
        b = b - n;
    }
    (a, b)
}

proof fn lemma_decimal_grows(d: Seq<u8>, b: u8)
    requires
        is_digit(b),
    ensures
        decimal(d.push(b)) == decimal(d) * 10 + (b - 0x30) as nat,
        decimal(d.push(b)) >= decimal(d),
{
    assert(d.push(b).drop_last() =~= d);
}

/// The bounds found by trimming the whole of `s` are those of `trimmed(s)`.
proof fn lemma_trimmed(s: Seq<u8>, a: int, b: int)
    requires
        a == skip_space(s.subrange(0, s.len() as int), 0),
        b == trim_end(s, a, s.len() as int),
    ensures
        trimmed(s) == s.subrange(a, b),
{
    assert(s.subrange(0, s.len() as int) =~= s);
}

/// Trimming the part of `s[a..b]` after its first `i - a` bytes.
proof fn lemma_trimmed_sub(s: Seq<u8>, a: int, b: int, i: int, rs: int, re: int)
    requires
        0 <= a <= i <= b <= s.len(),
        rs == skip_space(s.subrange(0, b), i),
        re == trim_end(s, rs, b),
        i <= rs <= re <= b,
    ensures
        trimmed(s.subrange(a, b).skip(i - a)) == s.subrange(rs, re),
{
    let u = s.subrange(a, b).skip(i - a);
    assert(u =~= s.subrange(i, b));
    lemma_skip_shift(s.subrange(0, b), u, i, 0);
    lemma_trim_end_shift(s, u, i, rs, re, b);
}

proof fn lemma_skip_shift(p: Seq<u8>, u: Seq<u8>, off: int, k: int)
    requires
        0 <= off,
        0 <= k <= u.len(),
        off + u.len() == p.len(),
        forall|j: int| 0 <= j < u.len() ==> u[j] == p[off + j],
    ensures
        skip_space(p, off + k) == off + skip_space(u, k),
    decreases u.len() - k,
{
    assert(lead_space(p, off + k) == lead_space(u, k));
    if k < u.len() && lead_space(u, k) > 0 {
        lemma_skip_shift(p, u, off, k + lead_space(u, k));
    }
}

proof fn lemma_trim_end_shift(s: Seq<u8>, u: Seq<u8>, off: int, rs: int, re: int, b: int)
    requires
        0 <= off <= rs <= b <= s.len(),
        u == s.subrange(off, b),
        rs == off + skip_space(u, 0),
        re == trim_end(s, rs, b),
    ensures
        trimmed(u) == s.subrange(rs, re),
{
    let us = skip_space(u, 0);
    lemma_trim_end_shift_rec(s, u, off, rs, b);
    let ue = trim_end(u, us, u.len() as int);
    assert(ue + off == re);
    assert forall|k: int| 0 <= k < ue - us implies #[trigger] u.subrange(us, ue)[k] == s.subrange(rs, re)[k] by {
        assert(u[us + k] == s[off + us + k]);
    }
    assert(u.subrange(us, trim_end(u, us, u.len() as int)) =~= s.subrange(rs, re));
}

proof fn lemma_trim_end_shift_rec(s: Seq<u8>, u: Seq<u8>, off: int, rs: int, j: int)
    requires
        0 <= off <= rs <= j <= s.len(),
        j - off <= u.len(),
        forall|k: int| 0 <= k < u.len() ==> u[k] == s[off + k],
    ensures
        trim_end(u, rs - off, j - off) + off == trim_end(s, rs, j),
        rs <= trim_end(s, rs, j) <= j,
    decreases j - rs,
{
    if j > rs {
        assert(tail_space(u, rs - off, j - off) == tail_space(s, rs, j)) by {
            if j - 1 >= rs {
                assert(u[j - 1 - off] == s[j - 1]);
            }
            if j - 2 >= rs {
                assert(u[j - 2 - off] == s[j - 2]);
            }
            if j - 3 >= rs {
                assert(u[j - 3 - off] == s[j - 3]);
            }
        }
        if tail_space(s, rs, j) > 0 {
            lemma_trim_end_shift_rec(s, u, off, rs, j - tail_space(s, rs, j));
        }
    }
}

/// A run of `n` digits followed by a non-digit (or the end) has length
/// `digit_run`.
proof fn lemma_digit_run(t: Seq<u8>, n: int)
    requires
        0 <= n <= t.len(),
        forall|k: int| 0 <= k < n ==> is_digit(#[trigger] t[k]),
        n < t.len() ==> !is_digit(t[n]),
    ensures
        digit_run(t) == n,
    decreases n,
{
    if n > 0 {
        lemma_digit_run(t.drop_first(), n - 1);
    }
}

/// The label `MemTotal:` that opens the total-memory line of the kernel's
/// memory listing.
pub open spec fn mem_total_label() -> Seq<u8> {
    seq![0x4du8, 0x65u8, 0x6du8, 0x54u8, 0x6fu8, 0x74u8, 0x61u8, 0x6cu8, 0x3au8]
}

/// A line of `s` starts at `i` with the label.
pub open spec fn opens_mem_total(s: Seq<u8>, i: int) -> bool {
    &&& 0 <= i
    &&& i == 0 || s[i - 1] == 0x0a
    &&& i + 9 <= s.len()
    &&& s.subrange(i, i + 9) == mem_total_label()
}

/// Start of the first line at or after `i` that opens with the label.
pub open spec fn mem_total_line(s: Seq<u8>, i: int) -> Option<int>
    decreases s.len() - i,
{
    if i < 0 || i >= s.len() {
        None
    } else if opens_mem_total(s, i) {
        Some(i)
    } else {
        mem_total_line(s, i + 1)
    }
}

/// End of the line holding `i`: the next newline at or after `i`, or the end.
pub open spec fn line_end(s: Seq<u8>, i: int) -> int
    decreases s.len() - i,
{
    if i < 0 || i >= s.len() || s[i] == 0x0a {
        i
    } else {
        line_end(s, i + 1)
    }
}

/// End of the word that starts at `i`: the next whitespace character, or
/// the end.
pub open spec fn word_end(s: Seq<u8>, i: int) -> int
    decreases s.len() - i,
{
    if i < 0 || i >= s.len() || lead_space(s, i) != 0 {
        i
    } else {
        word_end(s, i + 1)
    }
}

/// Value of `t` read as an unsigned 64-bit decimal, as `str::parse::<u64>`
/// reads it: an optional `+`, then at least one digit and nothing else.
pub open spec fn unsigned_decimal(t: Seq<u8>) -> Option<nat> {
    let d = if t.len() > 0 && t[0] == 0x2b { t.drop_first() } else { t };
    if d.len() > 0 && digit_run(d) == d.len() && decimal(d) <= u64::MAX {
        Some(decimal(d))
    } else {
        None
    }
}

/// Kilobytes on the first line of the memory listing `s` that opens with
/// `MemTotal:`: the first whitespace-separated word after the label, read
/// as a `u64`; `None` when there is no such line, or its word is missing or
/// not such a number.
pub open spec fn mem_total_kb(s: Seq<u8>) -> Option<nat> {
    match mem_total_line(s, 0) {
        None => None,
        Some(p) => {
            let e = line_end(s, p + 9);
            let pre = s.subrange(0, e);
            let ts = skip_space(pre, p + 9);
            unsigned_decimal(s.subrange(ts, word_end(pre, ts)))
        },
    }
}

/// Whether a line of `s` starts at `i` with the label.
fn opens_mem_total_at(s: &[u8], i: usize) -> (b: bool)
    requires
        i <= s@.len(),
    ensures
        b == opens_mem_total(s@, i as int),
{
    if !(i == 0 || s[i - 1] == 0x0au8) || s.len() - i < 9 {
        return false;
    }
    let b = s[i] == 0x4du8 && s[i + 1] == 0x65u8 && s[i + 2] == 0x6du8 && s[i + 3] == 0x54u8 && s[i + 4] == 0x6fu8
        && s[i + 5] == 0x74u8 && s[i + 6] == 0x61u8 && s[i + 7] == 0x6cu8 && s[i + 8] == 0x3au8;
    proof {
        let w = s@.subrange(i as int, i + 9);
        if b {
            assert(w =~= mem_total_label());
        } else if w == mem_total_label() {
            assert(w[0] == mem_total_label()[0] && w[1] == mem_total_label()[1] && w[2] == mem_total_label()[2]);
            assert(w[3] == mem_total_label()[3] && w[4] == mem_total_label()[4] && w[5] == mem_total_label()[5]);
            assert(w[6] == mem_total_label()[6] && w[7] == mem_total_label()[7] && w[8] == mem_total_label()[8]);
        }
    }
    b
}

/// Start of the first line of `s` that opens with the label.
fn find_mem_total(s: &[u8]) -> (r: Option<usize>)
    ensures
        r matches Some(p) ==> mem_total_line(s@, 0) == Some(p as int) && opens_mem_total(s@, p as int),
        r is None ==> mem_total_line(s@, 0) is None,
{
    let mut i: usize = 0;
    while i < s.len()
        invariant
            i <= s@.len(),
            mem_total_line(s@, 0) == mem_total_line(s@, i as int),
        decreases s@.len() - i,
    {
        if opens_mem_total_at(s, i) {
            return Some(i);
        }
        i = i + 1;
    }
    None
}

/// Kilobytes listed on the `MemTotal:` line of the kernel's memory
/// listing `s`.
pub fn mem_total_kb_of(s: &[u8]) -> (r: Option<u64>)
    ensures
        match mem_total_kb(s@) {
            Some(k) => r == Some(k as u64),
            None => r is None,
        },
{
    let found = find_mem_total(s);
    if found.is_none() {
        return None;
    }
    let p = found.unwrap();
    let n = s.len();
    assert(p + 9 <= n);
    let mut e = p + 9;
    while e < s.len() && s[e] != 0x0au8
        invariant
            p + 9 <= e <= s@.len(),
            line_end(s@, e as int) == line_end(s@, p + 9),
        decreases s@.len() - e,
    {
        e = e + 1;
    }
    assert(line_end(s@, e as int) == e);
    let ghost pre = s@.subrange(0, e as int);
    let (ts, _) = trim_bounds(s, p + 9, e);
    let mut te = ts;
    while te < e && lead_space_len(s, te, e) == 0
        invariant
            ts <= te <= e <= s@.len(),
            pre == s@.subrange(0, e as int),
            word_end(pre, te as int) == word_end(pre, ts as int),
        decreases e - te,
    {
        te = te + 1;
    }
    assert(word_end(pre, te as int) == te);
    let ghost t = s@.subrange(ts as int, te as int);
    assert(mem_total_kb(s@) == unsigned_decimal(t));
    decimal_in(s, ts, te)
}

/// `s[ts..te]` read as an unsigned 64-bit decimal.
fn decimal_in(s: &[u8], ts: usize, te: usize) -> (r: Option<u64>)
    requires
        ts <= te <= s@.len(),
    ensures
        match unsigned_decimal(s@.subrange(ts as int, te as int)) {
            Some(k) => r == Some(k as u64),
            None => r is None,
        },
{
    let ghost t = s@.subrange(ts as int, te as int);
    let start = if ts < te && s[ts] == 0x2bu8 { ts + 1 } else { ts };
    let ghost d = s@.subrange(start as int, te as int);
    proof {
        if ts < te && s@[ts as int] == 0x2b {
            assert(d =~= t.drop_first());
        } else {
            assert(d =~= t);
        }
    }
    if start == te {
        return None;
    }
    let mut i = start;
    let mut value: u64 = 0;
    let mut overflow = false;
    proof {
        assert(s@.subrange(start as int, start as int) =~= Seq::<u8>::empty());
    }
    while i < te
        invariant
            start <= i <= te <= s@.len(),
            t == s@.subrange(ts as int, te as int),
            d == s@.subrange(start as int, te as int),
            unsigned_decimal(t) == (if d.len() > 0 && digit_run(d) == d.len() && decimal(d) <= u64::MAX {
                Some(decimal(d))
            } else {
                None
            }),
            forall|k: int| start <= k < i ==> is_digit(#[trigger] s@[k]),
            !overflow ==> value == decimal(s@.subrange(start as int, i as int)),
            overflow ==> decimal(s@.subrange(start as int, i as int)) > u64::MAX,
        decreases te - i,
    {
        if !is_ascii_digit(s[i]) {
            proof {
                assert forall|k: int| 0 <= k < i - start implies is_digit(#[trigger] d[k]) by {
                    assert(d[k] == s@[start + k]);
                }
                assert(d[i - start] == s@[i as int]);
                lemma_digit_run(d, i - start);
            }
            return None;
        }
        let digit = (s[i] - 0x30u8) as u64;
        proof {
            let q = s@.subrange(start as int, i + 1);
            assert(q.drop_last() =~= s@.subrange(start as int, i as int));
            lemma_decimal_grows(s@.subrange(start as int, i as int), s@[i as int]);
        }
        if !overflow {
            if value > (u64::MAX - digit) / 10 {
                overflow = true;
            } else {
                value = value * 10 + digit;
            }
        }
        i = i + 1;
    }
    proof {
        assert(s@.subrange(start as int, te as int) == d);
        assert forall|k: int| 0 <= k < d.len() implies is_digit(#[trigger] d[k]) by {
            assert(d[k] == s@[start + k]);
        }
        lemma_digit_run(d, d.len() as int);
    }
    if overflow {
        None
    } else {
        Some(value)
    }
}

/// Bytes of memory listed on the `MemTotal:` line of the kernel's memory
/// listing `s` (its kilobytes times 1024). Excluded: a total whose bytes do
/// not fit in `u64` (see [`mem_total_fits`]).
pub fn mem_total_bytes(s: &[u8]) -> (r: Option<u64>)
    requires
        mem_total_kb(s@) matches Some(k) ==> k * 1024 <= u64::MAX,
    ensures
        match mem_total_kb(s@) {
            Some(k) => r == Some((k * 1024) as u64),
            None => r is None,
        },
{
    match mem_total_kb_of(s) {
        Some(kb) => Some(kb * 1024),
        None => None,
    }
}

/// Whether the total in `s`, if it lists one, fits in `u64` as bytes: the
/// condition under which [`mem_total_bytes`] may be called.
pub fn mem_total_fits(s: &[u8]) -> (b: bool)
    ensures
        b == (mem_total_kb(s@) matches Some(k) ==> k * 1024 <= u64::MAX),
{
    match mem_total_kb_of(s) {
        Some(kb) => kb <= u64::MAX / 1024,
        None => true,
    }
}

/// The word `Data`, naming a data cache in the kernel's cache listing.
pub open spec fn data_label() -> Seq<u8> {
    seq![0x44u8, 0x61u8, 0x74u8, 0x61u8]
}

/// Whether the cache type text `typ`, surrounding whitespace aside, is
/// `Data`.
pub fn names_data_cache(typ: &[u8]) -> (b: bool)
    ensures
        b == (trimmed(typ@) == data_label()),
{
    let (a, z) = trim_bounds(typ, 0, typ.len());
    proof {
        lemma_trimmed(typ@, a as int, z as int);
    }
    assert(trimmed(typ@) == typ@.subrange(a as int, z as int));
    let b = z - a == 4 && typ[a] == 0x44u8 && typ[a + 1] == 0x61u8 && typ[a + 2] == 0x74u8 && typ[a + 3] == 0x61u8;
    proof {
        let w = typ@.subrange(a as int, z as int);
        if b {
            assert(w =~= data_label());
        } else if w == data_label() {
            assert(w[0] == data_label()[0] && w[1] == data_label()[1]);
            assert(w[2] == data_label()[2] && w[3] == data_label()[3]);
        }
    }
    b
}

/// Whether the cache level text `lev`, surrounding whitespace aside, is
/// `level`.
pub fn level_is(lev: &[u8], level: &[u8]) -> (b: bool)
    ensures
        b == (trimmed(lev@) == level@),
{
    let (a, z) = trim_bounds(lev, 0, lev.len());
    proof {
        lemma_trimmed(lev@, a as int, z as int);
    }
    let ghost w = lev@.subrange(a as int, z as int);
    assert(trimmed(lev@) == w);
    if z - a != level.len() {
        assert(w.len() != level@.len());
        return false;
    }
    let mut i: usize = 0;
    while i < level.len()
        invariant
            a <= z <= lev@.len(),
            z - a == level@.len(),
            w == lev@.subrange(a as int, z as int),
            trimmed(lev@) == w,
            i <= level@.len(),
            forall|k: int| 0 <= k < i ==> w[k] == #[trigger] level@[k],
        decreases level@.len() - i,
    {
        if lev[a + i] != level[i] {
            assert(w[i as int] != level@[i as int]);
            return false;
        }
        i = i + 1;
    }
    assert(w =~= level@);
    true
}

/// Cache line size given by the text of a coherency line size: the text,
/// surrounding whitespace aside, read as a `usize`, when it is one and not
/// zero.
pub open spec fn line_size_value(s: Seq<u8>) -> Option<nat> {
    match unsigned_decimal(trimmed(s)) {
        Some(v) => if 0 < v <= usize::MAX {
            Some(v)
        } else {
            None
        },
        None => None,
    }
}

/// Cache line size written in `text`, as [`line_size_value`] reads it.
pub fn line_size_of(text: &[u8]) -> (r: Option<usize>)
    ensures
        match line_size_value(text@) {
            Some(v) => r == Some(v as usize),
            None => r is None,
        },
{
    let (a, z) = trim_bounds(text, 0, text.len());
    proof {
        lemma_trimmed(text@, a as int, z as int);
    }
    match decimal_in(text, a, z) {
        Some(v) => {
            if v > 0 && v <= usize::MAX as u64 {
                Some(v as usize)
            } else {
                None
            }
        },
        None => None,
    }
}

} // verus!
