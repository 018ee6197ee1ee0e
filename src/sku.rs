//! The stock-keeping unit of a backup (`sku.sis`): a tagged text format of
//! quoted keys and values, tab-indented, with nested blocks in braces.
use vstd::prelude::*;
use std::collections::BTreeMap;

verus! {

broadcast use vstd::std_specs::btree::group_btree_axioms;

pub struct StockKeepingUnit {
    pub name: Vec<u8>,
    pub disks: u32,
    pub disk: u32,
    pub backup: u32,
    pub contenttype: u32,
    pub apps: Vec<u32>,
    pub depots: Vec<u32>,
    pub manifests: BTreeMap<u32, u64>,
    pub chunkstores: BTreeMap<u32, BTreeMap<u32, u32>>,
}

#[derive(Clone, Copy, Debug, PartialEq, Eq, Structural)]
pub enum SkuError {
    /// The text does not follow the format.
    Malformed,
}

pub const QUOTE: u8 = 0x22;
pub const NEWLINE: u8 = 0x0a;
pub const TAB: u8 = 0x09;
pub const SPACE: u8 = 0x20;
pub const OPEN_BRACE: u8 = 0x7b;
pub const CLOSE_BRACE: u8 = 0x7d;

/// A key and a value, each as the byte range `[start, end)` of the text.
pub type Item = (int, int, int, int);

pub open spec fn is_space(b: u8) -> bool {
    b == SPACE || b == TAB
}

/// The first position at or after `p` that is not a space or a tab.
pub open spec fn ws_end(s: Seq<u8>, p: int) -> int
    decreases s.len() - p,
{
    if 0 <= p < s.len() && is_space(s[p]) {
        ws_end(s, p + 1)
    } else {
        p
    }
}

/// One or more spaces or tabs at `p`; the position after them.
pub open spec fn ws1(s: Seq<u8>, p: int) -> Option<int> {
    if ws_end(s, p) > p {
        Some(ws_end(s, p))
    } else {
        None
    }
}

/// The first quote at or after `p`, or the end of the text.
pub open spec fn quote_end(s: Seq<u8>, p: int) -> int
    decreases s.len() - p,
{
    if 0 <= p < s.len() && s[p] != QUOTE {
        quote_end(s, p + 1)
    } else {
        p
    }
}

pub open spec fn byte_is(s: Seq<u8>, p: int, b: u8) -> bool {
    0 <= p < s.len() && s[p] == b
}

/// A quoted string with at least one byte inside at `p`: the range inside.
pub open spec fn quoted(s: Seq<u8>, p: int) -> Option<(int, int)> {
    if byte_is(s, p, QUOTE) && quote_end(s, p + 1) > p + 1 && quote_end(s, p + 1) < s.len() {
        Some((p + 1, quote_end(s, p + 1)))
    } else {
        None
    }
}

/// Spaces, then a quoted key: its range.
pub open spec fn entry_key(s: Seq<u8>, p: int) -> Option<(int, int)> {
    match ws1(s, p) {
        Some(q) => quoted(s, q),
        None => None,
    }
}

/// `<spaces>"key"<tab><tab>"value"<newline>`.
pub open spec fn scalar_entry(s: Seq<u8>, p: int) -> Option<(Item, int)> {
    match entry_key(s, p) {
        Some((ks, ke)) => if byte_is(s, ke + 1, TAB) && byte_is(s, ke + 2, TAB) {
            match quoted(s, ke + 3) {
                Some((vs, ve)) => if byte_is(s, ve + 1, NEWLINE) {
                    Some(((ks, ke, vs, ve), ve + 2))
                } else {
                    None
                },
                None => None,
            }
        } else {
            None
        },
        None => None,
    }
}

/// The end of a block: spaces, then a closing brace.
pub open spec fn block_end(s: Seq<u8>, p: int) -> Option<int> {
    match ws1(s, p) {
        Some(q) => if byte_is(s, q, CLOSE_BRACE) {
            Some(q + 1)
        } else {
            None
        },
        None => None,
    }
}

/// Scalar entries up to the end of a block.
pub open spec fn scalar_items(s: Seq<u8>, p: int) -> Option<(Seq<Item>, int)>
    decreases s.len() - p,
{
    if p < 0 || p > s.len() {
        None
    } else if block_end(s, p) is Some {
        Some((Seq::empty(), block_end(s, p).unwrap()))
    } else {
        match scalar_entry(s, p) {
            Some((it, n)) => if n > p {
                match scalar_items(s, n) {
                    Some((rest, e)) => Some((seq![it] + rest, e)),
                    None => None,
                }
            } else {
                None
            },
            None => None,
        }
    }
}

/// After a key: newline, spaces, an opening brace and a newline.
pub open spec fn block_open(s: Seq<u8>, p: int) -> Option<int> {
    if byte_is(s, p, NEWLINE) {
        match ws1(s, p + 1) {
            Some(q) => if byte_is(s, q, OPEN_BRACE) && byte_is(s, q + 1, NEWLINE) {
                Some(q + 2)
            } else {
                None
            },
            None => None,
        }
    } else {
        None
    }
}

/// `<spaces>"key"` then a block of scalar entries, then a newline.
pub open spec fn block_entry(s: Seq<u8>, p: int) -> Option<((int, int), Seq<Item>, int)> {
    match entry_key(s, p) {
        Some((ks, ke)) => match block_open(s, ke + 1) {
            Some(q) => match scalar_items(s, q) {
                Some((items, e)) => if byte_is(s, e, NEWLINE) {
                    Some(((ks, ke), items, e + 1))
                } else {
                    None
                },
                None => None,
            },
            None => None,
        },
        None => None,
    }
}

/// Block entries up to the end of the enclosing block.
pub open spec fn nested_items(s: Seq<u8>, p: int) -> Option<(Seq<((int, int), Seq<Item>)>, int)>
    decreases s.len() - p,
{
    if p < 0 || p > s.len() {
        None
    } else if block_end(s, p) is Some {
        Some((Seq::empty(), block_end(s, p).unwrap()))
    } else {
        match block_entry(s, p) {
            Some((k, items, n)) => if n > p {
                match nested_items(s, n) {
                    Some((rest, e)) => Some((seq![(k, items)] + rest, e)),
                    None => None,
                }
            } else {
                None
            },
            None => None,
        }
    }
}

pub open spec fn lower(b: u8) -> u8 {
    if 0x41 <= b <= 0x5a {
        (b + 32) as u8
    } else {
        b
    }
}

/// The bytes `s[a..e]` equal `name`, ignoring ASCII case.
pub open spec fn eq_ci(s: Seq<u8>, a: int, e: int, name: Seq<u8>) -> bool {
    e - a == name.len() && forall|i: int| 0 <= i < name.len() ==> lower(#[trigger] s[a + i]) == lower(name[i])
}

pub open spec fn is_digit(b: u8) -> bool {
    0x30 <= b <= 0x39
}

pub open spec fn digits_value(d: Seq<u8>) -> int
    decreases d.len(),
{
    if d.len() == 0 {
        0
    } else {
        digits_value(d.drop_last()) * 10 + (d.last() - 0x30)
    }
}

/// `c` without a leading `+`.
pub open spec fn unsigned_part(c: Seq<u8>) -> Seq<u8> {
    if c.len() > 0 && c[0] == 0x2b {
        c.subrange(1, c.len() as int)
    } else {
        c
    }
}

/// The number that a non-empty run of decimal digits spells.
pub open spec fn decimal_digits(d: Seq<u8>) -> Option<int> {
    if d.len() > 0 && forall|i: int| 0 <= i < d.len() ==> is_digit(#[trigger] d[i]) {
        Some(digits_value(d))
    } else {
        None
    }
}

/// The number that `c` spells in decimal, with an optional `+`.
pub open spec fn decimal(c: Seq<u8>) -> Option<int> {
    decimal_digits(unsigned_part(c))
}

/// The number in `s[a..e]`, where it is at most `max`.
pub open spec fn number(s: Seq<u8>, a: int, e: int, max: int) -> Option<int> {
    match decimal(s.subrange(a, e)) {
        Some(v) => if v <= max {
            Some(v)
        } else {
            None
        },
        None => None,
    }
}

pub open spec fn items_view(v: Seq<(usize, usize, usize, usize)>) -> Seq<Item> {
    v.map_values(|t: (usize, usize, usize, usize)| (t.0 as int, t.1 as int, t.2 as int, t.3 as int))
}

pub open spec fn nested_view(v: Seq<((usize, usize), Vec<(usize, usize, usize, usize)>)>) -> Seq<((int, int), Seq<Item>)> {
    v.map_values(|t: ((usize, usize), Vec<(usize, usize, usize, usize)>)| ((t.0.0 as int, t.0.1 as int), items_view(t.1@)))
}

fn ws_end_exec(s: &[u8], p: usize) -> (r: usize)
    requires
        p <= s@.len(),
        s@.len() + 8 <= usize::MAX,
    ensures
        r == ws_end(s@, p as int),
        p <= r <= s@.len(),
    decreases s@.len() - p,
{
    if p < s.len() && (s[p] == SPACE || s[p] == TAB) {
        ws_end_exec(s, p + 1)
    } else {
        p
    }
}

fn ws1_exec(s: &[u8], p: usize) -> (r: Option<usize>)
    requires
        p <= s@.len(),
        s@.len() + 8 <= usize::MAX,
    ensures
        match r {
            Some(q) => ws1(s@, p as int) == Some(q as int) && q <= s@.len(),
            None => ws1(s@, p as int) is None,
        },
{
    let e = ws_end_exec(s, p);
    if e > p {
        Some(e)
    } else {
        None
    }
}

fn quote_end_exec(s: &[u8], p: usize) -> (r: usize)
    requires
        p <= s@.len(),
        s@.len() + 8 <= usize::MAX,
    ensures
        r == quote_end(s@, p as int),
        p <= r <= s@.len(),
    decreases s@.len() - p,
{
    if p < s.len() && s[p] != QUOTE {
        quote_end_exec(s, p + 1)
    } else {
        p
    }
}

fn byte_is_exec(s: &[u8], p: usize, b: u8) -> (r: bool)
    ensures
        r == byte_is(s@, p as int, b),
{
    p < s.len() && s[p] == b
}

fn quoted_exec(s: &[u8], p: usize) -> (r: Option<(usize, usize)>)
    requires
        p <= s@.len(),
        s@.len() + 8 <= usize::MAX,
    ensures
        match r {
            Some((a, e)) => quoted(s@, p as int) == Some((a as int, e as int)) && a < e < s@.len(),
            None => quoted(s@, p as int) is None,
        },
{
    if byte_is_exec(s, p, QUOTE) {
        let q = quote_end_exec(s, p + 1);
        if q > p + 1 && q < s.len() {
            return Some((p + 1, q));
        }
    }
    None
}

fn entry_key_exec(s: &[u8], p: usize) -> (r: Option<(usize, usize)>)
    requires
        p <= s@.len(),
        s@.len() + 8 <= usize::MAX,
    ensures
        match r {
            Some((a, e)) => entry_key(s@, p as int) == Some((a as int, e as int)) && a < e < s@.len(),
            None => entry_key(s@, p as int) is None,
        },
{
    match ws1_exec(s, p) {
        Some(q) => quoted_exec(s, q),
        None => None,
    }
}

fn scalar_entry_exec(s: &[u8], p: usize) -> (r: Option<((usize, usize, usize, usize), usize)>)
    requires
        p <= s@.len(),
        s@.len() + 8 <= usize::MAX,
    ensures
        match r {
            Some((t, n)) => scalar_entry(s@, p as int) == Some(
                ((t.0 as int, t.1 as int, t.2 as int, t.3 as int), n as int),
            ) && n <= s@.len() && t.0 <= t.1 <= s@.len() && t.2 <= t.3 <= s@.len(),
            None => scalar_entry(s@, p as int) is None,
        },
{
    match entry_key_exec(s, p) {
        Some((ks, ke)) => {
            if byte_is_exec(s, ke + 1, TAB) && byte_is_exec(s, ke + 2, TAB) {
                match quoted_exec(s, ke + 3) {
                    Some((vs, ve)) => {
                        if byte_is_exec(s, ve + 1, NEWLINE) {
                            Some(((ks, ke, vs, ve), ve + 2))
                        } else {
                            None
                        }
                    },
                    None => None,
                }
            } else {
                None
            }
        },
        None => None,
    }
}

fn block_end_exec(s: &[u8], p: usize) -> (r: Option<usize>)
    requires
        p <= s@.len(),
        s@.len() + 8 <= usize::MAX,
    ensures
        match r {
            Some(q) => block_end(s@, p as int) == Some(q as int) && q <= s@.len(),
            None => block_end(s@, p as int) is None,
        },
{
    match ws1_exec(s, p) {
        Some(q) => if byte_is_exec(s, q, CLOSE_BRACE) {
            Some(q + 1)
        } else {
            None
        },
        None => None,
    }
}

fn scalar_items_exec(s: &[u8], p: usize) -> (r: Option<(Vec<(usize, usize, usize, usize)>, usize)>)
    requires
        p <= s@.len(),
        s@.len() + 8 <= usize::MAX,
    ensures
        match r {
            Some((v, e)) => scalar_items(s@, p as int) == Some((items_view(v@), e as int)) && e <= s@.len()
                && items_in(s@, v@),
            None => scalar_items(s@, p as int) is None,
        },
    decreases s@.len() - p,
{
    match block_end_exec(s, p) {
        Some(e) => {
            let v: Vec<(usize, usize, usize, usize)> = Vec::new();
            assert(items_view(v@) =~= Seq::<Item>::empty());
            return Some((v, e));
        },
        None => {},
    }
    match scalar_entry_exec(s, p) {
        Some((it, n)) => {
            if n > p {
                match scalar_items_exec(s, n) {
                    Some((mut rest, e)) => {
                        let ghost r0 = rest@;
                        rest.insert(0, it);
                        assert(items_view(rest@) =~= seq![(it.0 as int, it.1 as int, it.2 as int, it.3 as int)] + items_view(r0));
                        assert forall|j: int| 0 <= j < rest@.len() implies (#[trigger] rest@[j]).0 <= rest@[j].1 <= s@.len()
                            && rest@[j].2 <= rest@[j].3 <= s@.len() by {
                            if j > 0 {
                                assert(rest@[j] == r0[j - 1]);
                            }
                        }
                        Some((rest, e))
                    },
                    None => None,
                }
            } else {
                None
            }
        },
        None => None,
    }
}

fn block_open_exec(s: &[u8], p: usize) -> (r: Option<usize>)
    requires
        p <= s@.len(),
        s@.len() + 8 <= usize::MAX,
    ensures
        match r {
            Some(q) => block_open(s@, p as int) == Some(q as int) && q <= s@.len(),
            None => block_open(s@, p as int) is None,
        },
{
    if byte_is_exec(s, p, NEWLINE) {
        match ws1_exec(s, p + 1) {
            Some(q) => if byte_is_exec(s, q, OPEN_BRACE) && byte_is_exec(s, q + 1, NEWLINE) {
                Some(q + 2)
            } else {
                None
            },
            None => None,
        }
    } else {
        None
    }
}

fn block_entry_exec(s: &[u8], p: usize) -> (r: Option<((usize, usize), Vec<(usize, usize, usize, usize)>, usize)>)
    requires
        p <= s@.len(),
        s@.len() + 8 <= usize::MAX,
    ensures
        match r {
            Some((k, v, n)) => block_entry(s@, p as int) == Some(
                ((k.0 as int, k.1 as int), items_view(v@), n as int),
            ) && n <= s@.len() && k.0 <= k.1 <= s@.len() && items_in(s@, v@),
            None => block_entry(s@, p as int) is None,
        },
{
    match entry_key_exec(s, p) {
        Some((ks, ke)) => match block_open_exec(s, ke + 1) {
            Some(q) => match scalar_items_exec(s, q) {
                Some((items, e)) => if byte_is_exec(s, e, NEWLINE) {
                    Some(((ks, ke), items, e + 1))
                } else {
                    None
                },
                None => None,
            },
            None => None,
        },
        None => None,
    }
}

fn nested_items_exec(s: &[u8], p: usize) -> (r: Option<(Vec<((usize, usize), Vec<(usize, usize, usize, usize)>)>, usize)>)
    requires
        p <= s@.len(),
        s@.len() + 8 <= usize::MAX,
    ensures
        match r {
            Some((v, e)) => nested_items(s@, p as int) == Some((nested_view(v@), e as int)) && e <= s@.len()
                && forall|j: int| 0 <= j < v@.len() ==> (#[trigger] v@[j]).0.0 <= v@[j].0.1 <= s@.len()
                && items_in(s@, v@[j].1@),
            None => nested_items(s@, p as int) is None,
        },
    decreases s@.len() - p,
{
    match block_end_exec(s, p) {
        Some(e) => {
            let v: Vec<((usize, usize), Vec<(usize, usize, usize, usize)>)> = Vec::new();
            assert(nested_view(v@) =~= Seq::<((int, int), Seq<Item>)>::empty());
            return Some((v, e));
        },
        None => {},
    }
    match block_entry_exec(s, p) {
        Some((k, items, n)) => {
            if n > p {
                match nested_items_exec(s, n) {
                    Some((mut rest, e)) => {
                        let ghost r0 = rest@;
                        let ghost iv = items_view(items@);
                        rest.insert(0, (k, items));
                        assert(nested_view(rest@) =~= seq![((k.0 as int, k.1 as int), iv)] + nested_view(r0));
                        assert forall|j: int| 0 <= j < rest@.len() implies (#[trigger] rest@[j]).0.0 <= rest@[j].0.1 <= s@.len()
                            && items_in(s@, rest@[j].1@) by {
                            if j > 0 {
                                assert(rest@[j] == r0[j - 1]);
                            }
                        }
                        Some((rest, e))
                    },
                    None => None,
                }
            } else {
                None
            }
        },
        None => None,
    }
}

fn eq_ci_exec(s: &[u8], a: usize, e: usize, name: &[u8]) -> (r: bool)
    requires
        a <= e <= s@.len(),
    ensures
        r == eq_ci(s@, a as int, e as int, name@),
{
    if e - a != name.len() {
        return false;
    }
    let mut i: usize = 0;
    while i < name.len()
        invariant
            e - a == name@.len(),
            a + name@.len() <= s@.len(),
            i <= name@.len(),
            forall|k: int| 0 <= k < i ==> lower(#[trigger] s@[a + k]) == lower(name@[k]),
        decreases name@.len() - i,
    {
        let x = s[a + i];
        let y = name[i];
        let lx = if 0x41 <= x && x <= 0x5a { x + 32 } else { x };
        let ly = if 0x41 <= y && y <= 0x5a { y + 32 } else { y };
        if lx != ly {
            return false;
        }
        i = i + 1;
    }
    true
}

proof fn lemma_digits_mono(d: Seq<u8>, i: int, j: int)
    requires
        0 <= i <= j <= d.len(),
        forall|k: int| 0 <= k < d.len() ==> is_digit(#[trigger] d[k]),
    ensures
        digits_value(d.take(i)) <= digits_value(d.take(j)),
    decreases j - i,
{
    if i < j {
        lemma_digits_mono(d, i, j - 1);
        assert(d.take(j).drop_last() =~= d.take(j - 1));
        assert(digits_value(d.take(j - 1)) >= 0) by {
            lemma_digits_nonneg(d.take(j - 1));
        }
    }
}

proof fn lemma_digits_nonneg(d: Seq<u8>)
    requires
        forall|k: int| 0 <= k < d.len() ==> is_digit(#[trigger] d[k]),
    ensures
        digits_value(d) >= 0,
    decreases d.len(),
{
    if d.len() > 0 {
        lemma_digits_nonneg(d.drop_last());
    }
}

/// The number in `s[a..e]`, where it is at most `max`.
fn number_exec(s: &[u8], a: usize, e: usize, max: u64) -> (r: Option<u64>)
    requires
        a <= e <= s@.len(),
    ensures
        match r {
            Some(v) => number(s@, a as int, e as int, max as int) == Some(v as int),
            None => number(s@, a as int, e as int, max as int) is None,
        },
{
    let ghost c = s@.subrange(a as int, e as int);
    let start: usize = if a < e && s[a] == 0x2b { a + 1 } else { a };
    let ghost d = s@.subrange(start as int, e as int);
    assert(d =~= unsigned_part(c));
    if start >= e {
        assert(decimal_digits(d) is None);
        assert(decimal(c) is None);
        return None;
    }
    let mut v: u64 = 0;
    let mut i: usize = start;
    assert(d.take(0) =~= Seq::<u8>::empty());
    while i < e
        invariant
            start <= i <= e <= s@.len(),
            d == s@.subrange(start as int, e as int),
            d == unsigned_part(c),
            c == s@.subrange(a as int, e as int),
            forall|k: int| 0 <= k < i - start ==> is_digit(#[trigger] d[k]),
            v == digits_value(d.take(i - start)),
            v <= max,
        decreases e - i,
    {
        let b = s[i];
        assert(d[i - start] == b);
        if b < 0x30 || b > 0x39 {
            assert(!is_digit(d[i - start]));
            assert(decimal_digits(d) is None);
            assert(decimal(c) is None);
            return None;
        }
        let dig = (b - 0x30) as u64;
        assert(d.take(i - start + 1).drop_last() =~= d.take(i - start));
        if dig > max || v > (max - dig) / 10 {
            proof {
                assert(v * 10 + dig > max) by (nonlinear_arith)
                    requires
                        dig > max || v > (max - dig) / 10,
                        dig <= 9,
                        v >= 0,
                ;
            }
            let mut k: usize = i + 1;
            while k < e
                invariant
                    i < k <= e <= s@.len(),
                    start <= i,
                    d == s@.subrange(start as int, e as int),
                    d == unsigned_part(c),
                    c == s@.subrange(a as int, e as int),
                    forall|j: int| 0 <= j < k - start ==> is_digit(#[trigger] d[j]),
                decreases e - k,
            {
                assert(d[k - start] == s@[k as int]);
                if s[k] < 0x30 || s[k] > 0x39 {
                    assert(!is_digit(d[k - start]));
                    assert(decimal_digits(d) is None);
                    assert(decimal(c) is None);
                    return None;
                }
                k = k + 1;
            }
            proof {
                lemma_digits_mono(d, i - start + 1, d.len() as int);
                assert(d.take(d.len() as int) =~= d);
                assert(digits_value(d.take(i - start + 1)) == v * 10 + dig);
                assert(decimal_digits(d) == Some(digits_value(d)));
                assert(decimal(c) == Some(digits_value(d)));
            }
            return None;
        }
        assert(v * 10 + dig <= max) by (nonlinear_arith)
            requires
                v <= (max - dig) / 10,
                dig <= 9,
                dig <= max,
        ;
        v = v * 10 + dig;
        i = i + 1;
    }
    assert(d.take(e - start) =~= d);
    Some(v)
}

pub open spec fn key_name() -> Seq<u8> {
    seq![0x6eu8, 0x61u8, 0x6du8, 0x65u8]
}

pub open spec fn key_disks() -> Seq<u8> {
    seq![0x64u8, 0x69u8, 0x73u8, 0x6bu8, 0x73u8]
}

pub open spec fn key_disk() -> Seq<u8> {
    seq![0x64u8, 0x69u8, 0x73u8, 0x6bu8]
}

pub open spec fn key_backup() -> Seq<u8> {
    seq![0x62u8, 0x61u8, 0x63u8, 0x6bu8, 0x75u8, 0x70u8]
}

pub open spec fn key_contenttype() -> Seq<u8> {
    seq![0x63u8, 0x6fu8, 0x6eu8, 0x74u8, 0x65u8, 0x6eu8, 0x74u8, 0x74u8, 0x79u8, 0x70u8, 0x65u8]
}

pub open spec fn key_apps() -> Seq<u8> {
    seq![0x61u8, 0x70u8, 0x70u8, 0x73u8]
}

pub open spec fn key_depots() -> Seq<u8> {
    seq![0x64u8, 0x65u8, 0x70u8, 0x6fu8, 0x74u8, 0x73u8]
}

pub open spec fn key_manifests() -> Seq<u8> {
    seq![0x6du8, 0x61u8, 0x6eu8, 0x69u8, 0x66u8, 0x65u8, 0x73u8, 0x74u8, 0x73u8]
}

pub open spec fn key_chunkstores() -> Seq<u8> {
    seq![0x63u8, 0x68u8, 0x75u8, 0x6eu8, 0x6bu8, 0x73u8, 0x74u8, 0x6fu8, 0x72u8, 0x65u8, 0x73u8]
}

/// The opening tag, `"SKU"`.
pub open spec fn key_header() -> Seq<u8> {
    seq![0x22u8, 0x73u8, 0x6bu8, 0x75u8, 0x22u8]
}

/// The values of a list block: entry `i` must have key `i`.
pub open spec fn list_spec(s: Seq<u8>, items: Seq<Item>) -> Option<Seq<u32>>
    decreases items.len(),
{
    if items.len() == 0 {
        Some(Seq::empty())
    } else {
        match list_spec(s, items.drop_last()) {
            Some(l) => {
                let it = items.last();
                if number(s, it.0, it.1, usize::MAX as int) == Some(items.len() - 1) {
                    match number(s, it.2, it.3, u32::MAX as int) {
                        Some(v) => Some(l.push(v as u32)),
                        None => None,
                    }
                } else {
                    None
                }
            },
            None => None,
        }
    }
}

/// The entries of a block as a map; a later key replaces an earlier one.
pub open spec fn map64_spec(s: Seq<u8>, items: Seq<Item>) -> Option<Map<u32, u64>>
    decreases items.len(),
{
    if items.len() == 0 {
        Some(Map::empty())
    } else {
        match map64_spec(s, items.drop_last()) {
            Some(m) => {
                let it = items.last();
                match (number(s, it.0, it.1, u32::MAX as int), number(s, it.2, it.3, u64::MAX as int)) {
                    (Some(k), Some(v)) => Some(m.insert(k as u32, v as u64)),
                    _ => None,
                }
            },
            None => None,
        }
    }
}

pub open spec fn map32_spec(s: Seq<u8>, items: Seq<Item>) -> Option<Map<u32, u32>>
    decreases items.len(),
{
    if items.len() == 0 {
        Some(Map::empty())
    } else {
        match map32_spec(s, items.drop_last()) {
            Some(m) => {
                let it = items.last();
                match (number(s, it.0, it.1, u32::MAX as int), number(s, it.2, it.3, u32::MAX as int)) {
                    (Some(k), Some(v)) => Some(m.insert(k as u32, v as u32)),
                    _ => None,
                }
            },
            None => None,
        }
    }
}

pub open spec fn nested_spec(s: Seq<u8>, blocks: Seq<((int, int), Seq<Item>)>) -> Option<Map<u32, Map<u32, u32>>>
    decreases blocks.len(),
{
    if blocks.len() == 0 {
        Some(Map::empty())
    } else {
        match nested_spec(s, blocks.drop_last()) {
            Some(m) => {
                let b = blocks.last();
                match (number(s, b.0.0, b.0.1, u32::MAX as int), map32_spec(s, b.1)) {
                    (Some(k), Some(inner)) => Some(m.insert(k as u32, inner)),
                    _ => None,
                }
            },
            None => None,
        }
    }
}

/// A scalar entry whose key is `key`: the range of its value.
pub open spec fn scalar_field(s: Seq<u8>, p: int, key: Seq<u8>) -> Option<(int, int, int)> {
    match scalar_entry(s, p) {
        Some((it, n)) => if eq_ci(s, it.0, it.1, key) {
            Some((it.2, it.3, n))
        } else {
            None
        },
        None => None,
    }
}

pub open spec fn number_field(s: Seq<u8>, p: int, key: Seq<u8>) -> Option<(u32, int)> {
    match scalar_field(s, p, key) {
        Some((a, e, n)) => match number(s, a, e, u32::MAX as int) {
            Some(v) => Some((v as u32, n)),
            None => None,
        },
        None => None,
    }
}

pub open spec fn block_field(s: Seq<u8>, p: int, key: Seq<u8>) -> Option<(Seq<Item>, int)> {
    match block_entry(s, p) {
        Some((k, items, n)) => if eq_ci(s, k.0, k.1, key) {
            Some((items, n))
        } else {
            None
        },
        None => None,
    }
}

pub open spec fn list_field(s: Seq<u8>, p: int, key: Seq<u8>) -> Option<(Seq<u32>, int)> {
    match block_field(s, p, key) {
        Some((items, n)) => match list_spec(s, items) {
            Some(l) => Some((l, n)),
            None => None,
        },
        None => None,
    }
}

pub open spec fn manifests_field(s: Seq<u8>, p: int) -> Option<(Map<u32, u64>, int)> {
    match block_field(s, p, key_manifests()) {
        Some((items, n)) => match map64_spec(s, items) {
            Some(m) => Some((m, n)),
            None => None,
        },
        None => None,
    }
}

pub open spec fn chunkstores_field(s: Seq<u8>, p: int) -> Option<Map<u32, Map<u32, u32>>> {
    match entry_key(s, p) {
        Some((ks, ke)) => if eq_ci(s, ks, ke, key_chunkstores()) {
            match block_open(s, ke + 1) {
                Some(q) => match nested_items(s, q) {
                    Some((blocks, e)) => if byte_is(s, e, NEWLINE) {
                        nested_spec(s, blocks)
                    } else {
                        None
                    },
                    None => None,
                },
                None => None,
            }
        } else {
            None
        },
        None => None,
    }
}

/// Name, disks, disk, backup, content type, apps, depots, manifests, chunk stores.
pub type SkuView = (Seq<u8>, u32, u32, u32, u32, Seq<u32>, Seq<u32>, Map<u32, u64>, Map<u32, Map<u32, u32>>);

pub open spec fn header_ok(s: Seq<u8>) -> bool {
    s.len() >= 8 && eq_ci(s, 0, 5, key_header()) && s[5] == NEWLINE && s[6] == OPEN_BRACE && s[7] == NEWLINE
}

/// What a well-formed `sku.sis` text says, or `None`. Text after the chunk
/// stores is not read.
pub open spec fn sku_spec(s: Seq<u8>) -> Option<SkuView> {
    if !header_ok(s) {
        None
    } else {
        match scalar_field(s, 8, key_name()) {
            None => None,
            Some((na, ne, at1)) => match number_field(s, at1, key_disks()) {
                None => None,
                Some((disks, at2)) => match number_field(s, at2, key_disk()) {
                    None => None,
                    Some((disk, at3)) => match number_field(s, at3, key_backup()) {
                        None => None,
                        Some((backup, at4)) => match number_field(s, at4, key_contenttype()) {
                            None => None,
                            Some((contenttype, at5)) => match list_field(s, at5, key_apps()) {
                                None => None,
                                Some((apps, at6)) => match list_field(s, at6, key_depots()) {
                                    None => None,
                                    Some((depots, at7)) => match manifests_field(s, at7) {
                                        None => None,
                                        Some((manifests, at8)) => match chunkstores_field(s, at8) {
                                            None => None,
                                            Some(chunkstores) => Some(
                                                (
                                                    s.subrange(na, ne),
                                                    disks,
                                                    disk,
                                                    backup,
                                                    contenttype,
                                                    apps,
                                                    depots,
                                                    manifests,
                                                    chunkstores,
                                                ),
                                            ),
                                        },
                                    },
                                },
                            },
                        },
                    },
                },
            },
        }
    }
}

impl StockKeepingUnit {
    pub open spec fn view(&self) -> SkuView {
        (
            self.name@,
            self.disks,
            self.disk,
            self.backup,
            self.contenttype,
            self.apps@,
            self.depots@,
            self.manifests@,
            self.chunkstores@.map_values(|m: BTreeMap<u32, u32>| m@),
        )
    }
}

fn list_exec(s: &[u8], items: &Vec<(usize, usize, usize, usize)>) -> (r: Option<Vec<u32>>)
    requires
        forall|j: int| 0 <= j < items@.len() ==> (#[trigger] items@[j]).0 <= items@[j].1 <= s@.len()
            && items@[j].2 <= items@[j].3 <= s@.len(),
    ensures
        match r {
            Some(v) => list_spec(s@, items_view(items@)) == Some(v@),
            None => list_spec(s@, items_view(items@)) is None,
        },
{
    let mut out: Vec<u32> = Vec::new();
    let mut j: usize = 0;
    assert(items_view(items@).take(0) =~= Seq::<Item>::empty());
    while j < items.len()
        invariant
            j <= items@.len(),
            forall|j2: int| 0 <= j2 < items@.len() ==> (#[trigger] items@[j2]).0 <= items@[j2].1 <= s@.len()
                && items@[j2].2 <= items@[j2].3 <= s@.len(),
            list_spec(s@, items_view(items@).take(j as int)) == Some(out@),
        decreases items@.len() - j,
    {
        let it = items[j];
        let ghost iv = items_view(items@).take(j + 1);
        assert(iv.drop_last() =~= items_view(items@).take(j as int));
        assert(iv.last() == (it.0 as int, it.1 as int, it.2 as int, it.3 as int));
        match number_exec(s, it.0, it.1, usize::MAX as u64) {
            Some(k) => {
                if k != j as u64 {
                    proof {
                        lemma_list_prefix_none(s@, items_view(items@), j + 1);
                    }
                    return None;
                }
            },
            None => {
                proof {
                    lemma_list_prefix_none(s@, items_view(items@), j + 1);
                }
                return None;
            },
        }
        match number_exec(s, it.2, it.3, u32::MAX as u64) {
            Some(v) => {
                out.push(v as u32);
            },
            None => {
                proof {
                    lemma_list_prefix_none(s@, items_view(items@), j + 1);
                }
                return None;
            },
        }
        j = j + 1;
    }
    assert(items_view(items@).take(j as int) =~= items_view(items@));
    Some(out)
}

proof fn lemma_list_prefix_none(s: Seq<u8>, items: Seq<Item>, n: int)
    requires
        0 <= n <= items.len(),
        list_spec(s, items.take(n)) is None,
    ensures
        list_spec(s, items) is None,
    decreases items.len() - n,
{
    if n < items.len() {
        assert(items.take(n + 1).drop_last() =~= items.take(n));
        lemma_list_prefix_none(s, items, n + 1);
    } else {
        assert(items.take(n) =~= items);
    }
}

proof fn lemma_map64_prefix_none(s: Seq<u8>, items: Seq<Item>, n: int)
    requires
        0 <= n <= items.len(),
        map64_spec(s, items.take(n)) is None,
    ensures
        map64_spec(s, items) is None,
    decreases items.len() - n,
{
    if n < items.len() {
        assert(items.take(n + 1).drop_last() =~= items.take(n));
        lemma_map64_prefix_none(s, items, n + 1);
    } else {
        assert(items.take(n) =~= items);
    }
}

proof fn lemma_map32_prefix_none(s: Seq<u8>, items: Seq<Item>, n: int)
    requires
        0 <= n <= items.len(),
        map32_spec(s, items.take(n)) is None,
    ensures
        map32_spec(s, items) is None,
    decreases items.len() - n,
{
    if n < items.len() {
        assert(items.take(n + 1).drop_last() =~= items.take(n));
        lemma_map32_prefix_none(s, items, n + 1);
    } else {
        assert(items.take(n) =~= items);
    }
}

proof fn lemma_nested_prefix_none(s: Seq<u8>, items: Seq<((int, int), Seq<Item>)>, n: int)
    requires
        0 <= n <= items.len(),
        nested_spec(s, items.take(n)) is None,
    ensures
        nested_spec(s, items) is None,
    decreases items.len() - n,
{
    if n < items.len() {
        assert(items.take(n + 1).drop_last() =~= items.take(n));
        lemma_nested_prefix_none(s, items, n + 1);
    } else {
        assert(items.take(n) =~= items);
    }
}

pub open spec fn items_in(s: Seq<u8>, items: Seq<(usize, usize, usize, usize)>) -> bool {
    forall|j: int| 0 <= j < items.len() ==> (#[trigger] items[j]).0 <= items[j].1 <= s.len() && items[j].2
        <= items[j].3 <= s.len()
}

fn map64_exec(s: &[u8], items: &Vec<(usize, usize, usize, usize)>) -> (r: Option<BTreeMap<u32, u64>>)
    requires
        items_in(s@, items@),
    ensures
        match r {
            Some(m) => map64_spec(s@, items_view(items@)) == Some(m@),
            None => map64_spec(s@, items_view(items@)) is None,
        },
{
    let mut out: BTreeMap<u32, u64> = BTreeMap::new();
    let mut j: usize = 0;
    assert(items_view(items@).take(0) =~= Seq::<Item>::empty());
    assert(out@ =~= Map::<u32, u64>::empty());
    while j < items.len()
        invariant
            j <= items@.len(),
            items_in(s@, items@),
            map64_spec(s@, items_view(items@).take(j as int)) == Some(out@),
        decreases items@.len() - j,
    {
        let it = items[j];
        let ghost iv = items_view(items@).take(j + 1);
        assert(iv.drop_last() =~= items_view(items@).take(j as int));
        assert(iv.last() == (it.0 as int, it.1 as int, it.2 as int, it.3 as int));
        let k = number_exec(s, it.0, it.1, u32::MAX as u64);
        let v = number_exec(s, it.2, it.3, u64::MAX);
        match (k, v) {
            (Some(k), Some(v)) => {
                out.insert(k as u32, v);
            },
            _ => {
                proof {
                    lemma_map64_prefix_none(s@, items_view(items@), j + 1);
                }
                return None;
            },
        }
        j = j + 1;
    }
    assert(items_view(items@).take(j as int) =~= items_view(items@));
    Some(out)
}

fn map32_exec(s: &[u8], items: &Vec<(usize, usize, usize, usize)>) -> (r: Option<BTreeMap<u32, u32>>)
    requires
        items_in(s@, items@),
    ensures
        match r {
            Some(m) => map32_spec(s@, items_view(items@)) == Some(m@),
            None => map32_spec(s@, items_view(items@)) is None,
        },
{
    let mut out: BTreeMap<u32, u32> = BTreeMap::new();
    let mut j: usize = 0;
    assert(items_view(items@).take(0) =~= Seq::<Item>::empty());
    assert(out@ =~= Map::<u32, u32>::empty());
    while j < items.len()
        invariant
            j <= items@.len(),
            items_in(s@, items@),
            map32_spec(s@, items_view(items@).take(j as int)) == Some(out@),
        decreases items@.len() - j,
    {
        let it = items[j];
        let ghost iv = items_view(items@).take(j + 1);
        assert(iv.drop_last() =~= items_view(items@).take(j as int));
        assert(iv.last() == (it.0 as int, it.1 as int, it.2 as int, it.3 as int));
        let k = number_exec(s, it.0, it.1, u32::MAX as u64);
        let v = number_exec(s, it.2, it.3, u32::MAX as u64);
        match (k, v) {
            (Some(k), Some(v)) => {
                out.insert(k as u32, v as u32);
            },
            _ => {
                proof {
                    lemma_map32_prefix_none(s@, items_view(items@), j + 1);
                }
                return None;
            },
        }
        j = j + 1;
    }
    assert(items_view(items@).take(j as int) =~= items_view(items@));
    Some(out)
}

fn nested_exec(s: &[u8], blocks: &Vec<((usize, usize), Vec<(usize, usize, usize, usize)>)>) -> (r: Option<
    BTreeMap<u32, BTreeMap<u32, u32>>,
>)
    requires
        forall|j: int| 0 <= j < blocks@.len() ==> (#[trigger] blocks@[j]).0.0 <= blocks@[j].0.1 <= s@.len()
            && items_in(s@, blocks@[j].1@),
    ensures
        match r {
            Some(m) => nested_spec(s@, nested_view(blocks@)) == Some(m@.map_values(|b: BTreeMap<u32, u32>| b@)),
            None => nested_spec(s@, nested_view(blocks@)) is None,
        },
{
    let mut out: BTreeMap<u32, BTreeMap<u32, u32>> = BTreeMap::new();
    let mut j: usize = 0;
    assert(nested_view(blocks@).take(0) =~= Seq::<((int, int), Seq<Item>)>::empty());
    assert(out@.map_values(|b: BTreeMap<u32, u32>| b@) =~= Map::<u32, Map<u32, u32>>::empty());
    while j < blocks.len()
        invariant
            j <= blocks@.len(),
            forall|j2: int| 0 <= j2 < blocks@.len() ==> (#[trigger] blocks@[j2]).0.0 <= blocks@[j2].0.1 <= s@.len()
                && items_in(s@, blocks@[j2].1@),
            nested_spec(s@, nested_view(blocks@).take(j as int)) == Some(out@.map_values(|b: BTreeMap<u32, u32>| b@)),
        decreases blocks@.len() - j,
    {
        let b = &blocks[j];
        let ghost bv = nested_view(blocks@).take(j + 1);
        assert(bv.drop_last() =~= nested_view(blocks@).take(j as int));
        assert(bv.last() == ((b.0.0 as int, b.0.1 as int), items_view(b.1@)));
        let k = number_exec(s, b.0.0, b.0.1, u32::MAX as u64);
        let inner = map32_exec(s, &b.1);
        match (k, inner) {
            (Some(k), Some(inner)) => {
                let ghost before = out@;
                let ghost iv = inner@;
                out.insert(k as u32, inner);
                assert(out@.map_values(|b: BTreeMap<u32, u32>| b@) =~= before.map_values(
                    |b: BTreeMap<u32, u32>| b@,
                ).insert(k as u32, iv));
            },
            _ => {
                proof {
                    lemma_nested_prefix_none(s@, nested_view(blocks@), j + 1);
                }
                return None;
            },
        }
        j = j + 1;
    }
    assert(nested_view(blocks@).take(j as int) =~= nested_view(blocks@));
    Some(out)
}

pub const KEY_NAME: [u8; 4] = [0x6e, 0x61, 0x6d, 0x65];
pub const KEY_DISKS: [u8; 5] = [0x64, 0x69, 0x73, 0x6b, 0x73];
pub const KEY_DISK: [u8; 4] = [0x64, 0x69, 0x73, 0x6b];
pub const KEY_BACKUP: [u8; 6] = [0x62, 0x61, 0x63, 0x6b, 0x75, 0x70];
pub const KEY_CONTENTTYPE: [u8; 11] = [0x63, 0x6f, 0x6e, 0x74, 0x65, 0x6e, 0x74, 0x74, 0x79, 0x70, 0x65];
pub const KEY_APPS: [u8; 4] = [0x61, 0x70, 0x70, 0x73];
pub const KEY_DEPOTS: [u8; 6] = [0x64, 0x65, 0x70, 0x6f, 0x74, 0x73];
pub const KEY_MANIFESTS: [u8; 9] = [0x6d, 0x61, 0x6e, 0x69, 0x66, 0x65, 0x73, 0x74, 0x73];
pub const KEY_CHUNKSTORES: [u8; 11] = [0x63, 0x68, 0x75, 0x6e, 0x6b, 0x73, 0x74, 0x6f, 0x72, 0x65, 0x73];
pub const KEY_HEADER: [u8; 5] = [0x22, 0x73, 0x6b, 0x75, 0x22];

fn scalar_field_exec(s: &[u8], p: usize, key: &[u8]) -> (r: Option<(usize, usize, usize)>)
    requires
        p <= s@.len(),
        s@.len() + 8 <= usize::MAX,
    ensures
        match r {
            Some((a, e, n)) => scalar_field(s@, p as int, key@) == Some((a as int, e as int, n as int)) && a <= e
                <= s@.len() && n <= s@.len(),
            None => scalar_field(s@, p as int, key@) is None,
        },
{
    match scalar_entry_exec(s, p) {
        Some((it, n)) => if eq_ci_exec(s, it.0, it.1, key) {
            Some((it.2, it.3, n))
        } else {
            None
        },
        None => None,
    }
}

fn number_field_exec(s: &[u8], p: usize, key: &[u8]) -> (r: Option<(u32, usize)>)
    requires
        p <= s@.len(),
        s@.len() + 8 <= usize::MAX,
    ensures
        match r {
            Some((v, n)) => number_field(s@, p as int, key@) == Some((v, n as int)) && n <= s@.len(),
            None => number_field(s@, p as int, key@) is None,
        },
{
    match scalar_field_exec(s, p, key) {
        Some((a, e, n)) => match number_exec(s, a, e, u32::MAX as u64) {
            Some(v) => Some((v as u32, n)),
            None => None,
        },
        None => None,
    }
}

fn block_field_exec(s: &[u8], p: usize, key: &[u8]) -> (r: Option<(Vec<(usize, usize, usize, usize)>, usize)>)
    requires
        p <= s@.len(),
        s@.len() + 8 <= usize::MAX,
    ensures
        match r {
            Some((v, n)) => block_field(s@, p as int, key@) == Some((items_view(v@), n as int)) && n <= s@.len()
                && items_in(s@, v@),
            None => block_field(s@, p as int, key@) is None,
        },
{
    match block_entry_exec(s, p) {
        Some((k, items, n)) => if eq_ci_exec(s, k.0, k.1, key) {
            Some((items, n))
        } else {
            None
        },
        None => None,
    }
}

fn list_field_exec(s: &[u8], p: usize, key: &[u8]) -> (r: Option<(Vec<u32>, usize)>)
    requires
        p <= s@.len(),
        s@.len() + 8 <= usize::MAX,
    ensures
        match r {
            Some((v, n)) => list_field(s@, p as int, key@) == Some((v@, n as int)) && n <= s@.len(),
            None => list_field(s@, p as int, key@) is None,
        },
{
    match block_field_exec(s, p, key) {
        Some((items, n)) => match list_exec(s, &items) {
            Some(l) => Some((l, n)),
            None => None,
        },
        None => None,
    }
}

impl StockKeepingUnit {
    /// Parses the text of `sku.sis`.
    pub fn read(text: &[u8]) -> (r: Result<StockKeepingUnit, SkuError>)
        ensures
            match r {
                Ok(sku) => sku_spec(text@) == Some(sku@),
                Err(_) => sku_spec(text@) is None || text@.len() + 8 > usize::MAX,
            },
    {
        let s = text;
        let n = s.len();
        if n > usize::MAX - 8 {
            return Err(SkuError::Malformed);
        }
        let header: [u8; 5] = KEY_HEADER;
        assert(header@ =~= key_header());
        if n < 8 || !eq_ci_exec(s, 0, 5, header.as_slice()) || s[5] != NEWLINE || s[6] != OPEN_BRACE || s[7] != NEWLINE {
            return Err(SkuError::Malformed);
        }
        let k_name: [u8; 4] = KEY_NAME;
        assert(k_name@ =~= key_name());
        let (na, ne, at1) = match scalar_field_exec(s, 8, k_name.as_slice()) {
            Some(x) => x,
            None => {
                return Err(SkuError::Malformed);
            },
        };
        let k_disks: [u8; 5] = KEY_DISKS;
        assert(k_disks@ =~= key_disks());
        let (disks, at2) = match number_field_exec(s, at1, k_disks.as_slice()) {
            Some(x) => x,
            None => {
                return Err(SkuError::Malformed);
            },
        };
        let k_disk: [u8; 4] = KEY_DISK;
        assert(k_disk@ =~= key_disk());
        let (disk, at3) = match number_field_exec(s, at2, k_disk.as_slice()) {
            Some(x) => x,
            None => {
                return Err(SkuError::Malformed);
            },
        };
        let k_backup: [u8; 6] = KEY_BACKUP;
        assert(k_backup@ =~= key_backup());
        let (backup, at4) = match number_field_exec(s, at3, k_backup.as_slice()) {
            Some(x) => x,
            None => {
                return Err(SkuError::Malformed);
            },
        };
        let k_contenttype: [u8; 11] = KEY_CONTENTTYPE;
        assert(k_contenttype@ =~= key_contenttype());
        let (contenttype, at5) = match number_field_exec(s, at4, k_contenttype.as_slice()) {
            Some(x) => x,
            None => {
                return Err(SkuError::Malformed);
            },
        };
        let k_apps: [u8; 4] = KEY_APPS;
        assert(k_apps@ =~= key_apps());
        let (apps, at6) = match list_field_exec(s, at5, k_apps.as_slice()) {
            Some(x) => x,
            None => {
                return Err(SkuError::Malformed);
            },
        };
        let k_depots: [u8; 6] = KEY_DEPOTS;
        assert(k_depots@ =~= key_depots());
        let (depots, at7) = match list_field_exec(s, at6, k_depots.as_slice()) {
            Some(x) => x,
            None => {
                return Err(SkuError::Malformed);
            },
        };
        let k_manifests: [u8; 9] = KEY_MANIFESTS;
        assert(k_manifests@ =~= key_manifests());
        let (mitems, at8) = match block_field_exec(s, at7, k_manifests.as_slice()) {
            Some(x) => x,
            None => {
                return Err(SkuError::Malformed);
            },
        };
        let manifests = match map64_exec(s, &mitems) {
            Some(m) => m,
            None => {
                return Err(SkuError::Malformed);
            },
        };
        let k_chunkstores: [u8; 11] = KEY_CHUNKSTORES;
        assert(k_chunkstores@ =~= key_chunkstores());
        let (ks, ke) = match entry_key_exec(s, at8) {
            Some(x) => x,
            None => {
                return Err(SkuError::Malformed);
            },
        };
        if !eq_ci_exec(s, ks, ke, k_chunkstores.as_slice()) {
            return Err(SkuError::Malformed);
        }
        let q = match block_open_exec(s, ke + 1) {
            Some(q) => q,
            None => {
                return Err(SkuError::Malformed);
            },
        };
        let (blocks, e) = match nested_items_exec(s, q) {
            Some(x) => x,
            None => {
                return Err(SkuError::Malformed);
            },
        };
        if !byte_is_exec(s, e, NEWLINE) {
            return Err(SkuError::Malformed);
        }
        let chunkstores = match nested_exec(s, &blocks) {
            Some(m) => m,
            None => {
                return Err(SkuError::Malformed);
            },
        };
        let name = crate::le::copy_range(s, na, ne);
        let sku = StockKeepingUnit { name, disks, disk, backup, contenttype, apps, depots, manifests, chunkstores };
        Ok(sku)
    }
}

} // verus!
