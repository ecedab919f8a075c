//! The text form of a rescue map: comment lines, a `pos status` line with the current
//! position, and one `pos size status` line per block, numbers in hexadecimal with `0x` or
//! in decimal.

use vstd::prelude::*;
use crate::error::{RecoveryError, Result};
use crate::mapfile::{status_char, BlockStatus, MapBlock, RecoveryMapFile};
use crate::text::{chars_of, hex_digit, hex_min, hex_padded, is_white_space, push_char, push_hex_padded, push_str};

verus! {

/// The index of the first line feed in `s` from `k` on, or the length of `s`.
pub open spec fn newline_from(s: Seq<char>, k: int) -> int
    decreases s.len() - k,
{
    if k < 0 || k >= s.len() {
        s.len() as int
    } else if s[k] == '\n' {
        k
    } else {
        newline_from(s, k + 1)
    }
}

/// A line without its trailing carriage return.
pub open spec fn strip_cr(l: Seq<char>) -> Seq<char> {
    if l.len() > 0 && l.last() == '\r' {
        l.drop_last()
    } else {
        l
    }
}

/// The line feed found from `k` lies at or after `k`, within the text.
pub proof fn lemma_newline_from_bounds(s: Seq<char>, k: int)
    requires
        0 <= k,
    ensures
        newline_from(s, k) >= k || newline_from(s, k) == s.len(),
        newline_from(s, k) <= s.len(),
    decreases s.len() - k,
{
    if k < s.len() && s[k] != '\n' {
        lemma_newline_from_bounds(s, k + 1);
    }
}

/// The lines of a text: split at line feeds, each without a trailing carriage return, with
/// no empty line after a final line feed.
pub open spec fn text_lines(t: Seq<char>) -> Seq<Seq<char>>
    decreases t.len(),
{
    if t.len() == 0 {
        Seq::empty()
    } else {
        let e = newline_from(t, 0);
        proof {
            lemma_newline_from_bounds(t, 0);
        }
        seq![strip_cr(t.subrange(0, e))] + (if e < t.len() {
            text_lines(t.subrange(e + 1, t.len() as int))
        } else {
            Seq::empty()
        })
    }
}

/// The index of the first white space in `s` from `k` on, or the length of `s`.
pub open spec fn space_from(s: Seq<char>, k: int) -> int
    decreases s.len() - k,
{
    if k < 0 || k >= s.len() {
        s.len() as int
    } else if is_white_space(s[k]) {
        k
    } else {
        space_from(s, k + 1)
    }
}

/// The white space found from `k` lies at or after `k`, within the text.
pub proof fn lemma_space_from_bounds(s: Seq<char>, k: int)
    requires
        0 <= k <= s.len(),
    ensures
        k <= space_from(s, k) <= s.len(),
    decreases s.len() - k,
{
    if k < s.len() && !is_white_space(s[k]) {
        lemma_space_from_bounds(s, k + 1);
    }
}

/// The words of `s`: its maximal runs of characters other than white space.
pub open spec fn words(s: Seq<char>) -> Seq<Seq<char>>
    decreases s.len(),
{
    if s.len() == 0 {
        Seq::empty()
    } else if is_white_space(s[0]) {
        words(s.drop_first())
    } else {
        let e = space_from(s, 1);
        proof {
            lemma_space_from_bounds(s, 1);
        }
        seq![s.subrange(0, e)] + words(s.subrange(e, s.len() as int))
    }
}

/// The value of digit `c` in base `radix` (10 or 16), upper or lower case.
pub open spec fn digit_value(c: char, radix: nat) -> Option<nat> {
    let n = c as u32;
    let v: int = if 0x30 <= n <= 0x39 {
        n - 0x30
    } else if 0x61 <= n <= 0x7A {
        n - 0x61 + 10
    } else if 0x41 <= n <= 0x5A {
        n - 0x41 + 10
    } else {
        99
    };
    if v < radix {
        Some(v as nat)
    } else {
        None
    }
}

/// The value of the digit string `d` in base `radix`, if every character is a digit.
pub open spec fn digits_value(d: Seq<char>, radix: nat) -> Option<nat>
    decreases d.len(),
{
    if d.len() == 0 {
        Some(0)
    } else {
        match (digits_value(d.drop_last(), radix), digit_value(d.last(), radix)) {
            (Some(a), Some(x)) => Some(a * radix + x),
            _ => None,
        }
    }
}

/// A number in base `radix`: an optional `+`, then at least one digit, the value fitting in
/// 64 bits.
pub open spec fn parse_radix(s: Seq<char>, radix: nat) -> Option<u64> {
    let d = if s.len() > 0 && s[0] == '+' {
        s.drop_first()
    } else {
        s
    };
    if d.len() == 0 {
        None
    } else {
        match digits_value(d, radix) {
            Some(v) => if v <= u64::MAX {
                Some(v as u64)
            } else {
                None
            },
            None => None,
        }
    }
}

/// A number of a map: hexadecimal after `0x` or `0X`, else decimal.
pub open spec fn parse_number(s: Seq<char>) -> Option<u64> {
    if s.len() >= 2 && s[0] == '0' && (s[1] == 'x' || s[1] == 'X') {
        parse_radix(s.skip(2), 16)
    } else {
        parse_radix(s, 10)
    }
}

/// The status written as `c`.
pub open spec fn status_of_char(c: char) -> Option<BlockStatus> {
    if c == '?' {
        Some(BlockStatus::NonTried)
    } else if c == '+' {
        Some(BlockStatus::Finished)
    } else if c == '-' {
        Some(BlockStatus::BadSector)
    } else if c == '/' {
        Some(BlockStatus::NonTrimmed)
    } else {
        None
    }
}

/// The state of a map being read: current position, current status, blocks so far.
pub type MapState = (u64, BlockStatus, Seq<MapBlock>);

/// What one line does to the state: lines that are blank or start with `#` are skipped; two
/// words that read as a number and a status set the current position and status; three
/// words that read as two numbers and a status add a block; anything else is ignored.
pub open spec fn apply_line(l: Seq<char>, st: MapState) -> MapState {
    let w = words(l);
    if w.len() == 0 || w[0][0] == '#' {
        st
    } else if w.len() == 2 {
        match (parse_number(w[0]), status_of_char(w[1][0])) {
            (Some(p), Some(s)) => (p, s, st.2),
            _ => st,
        }
    } else if w.len() == 3 {
        match (parse_number(w[0]), parse_number(w[1]), status_of_char(w[2][0])) {
            (Some(p), Some(z), Some(s)) => (st.0, st.1, st.2.push(MapBlock { pos: p, size: z, status: s })),
            _ => st,
        }
    } else {
        st
    }
}

/// The state after reading `lines` from `st`.
pub open spec fn apply_lines(lines: Seq<Seq<char>>, st: MapState) -> MapState
    decreases lines.len(),
{
    if lines.len() == 0 {
        st
    } else {
        apply_lines(lines.drop_first(), apply_line(lines[0], st))
    }
}

/// The state a text leaves, read from position 0, status untried and no blocks.
pub open spec fn read_state(t: Seq<char>) -> MapState {
    apply_lines(text_lines(t), (0u64, BlockStatus::NonTried, Seq::empty()))
}

/// A number written as `0x` and at least twelve upper-case hexadecimal digits.
pub open spec fn hex_field(v: u64) -> Seq<char> {
    seq!['0', 'x'] + hex_padded(v as nat, 12)
}

/// The five spaces between the fields of a line.
pub open spec fn field_gap() -> Seq<char> {
    Seq::new(5, |i: int| ' ')
}

/// The first comment line of a map text.
pub open spec fn title_line() -> Seq<char> {
    "# Antigravity Data Recovery Suite Mapfile"@
}

/// The comment line naming the fields of the current position line.
pub open spec fn current_heading() -> Seq<char> {
    "# Current_pos          Current_status"@
}

/// The comment line naming the fields of the block lines.
pub open spec fn block_heading() -> Seq<char> {
    "#      pos                size        status"@
}

/// The line with the current position and status.
pub open spec fn current_line(m: RecoveryMapFile) -> Seq<char> {
    hex_field(m.current_pos) + field_gap() + seq![status_char(m.current_status)]
}

/// The line of a block.
pub open spec fn block_line(b: MapBlock) -> Seq<char> {
    hex_field(b.pos) + field_gap() + hex_field(b.size) + field_gap() + seq![status_char(b.status)]
}

/// The lines of the blocks, each ended by a line feed.
pub open spec fn blocks_text(bs: Seq<MapBlock>) -> Seq<char>
    decreases bs.len(),
{
    if bs.len() == 0 {
        Seq::empty()
    } else {
        block_line(bs[0]) + seq!['\n'] + blocks_text(bs.drop_first())
    }
}

/// The text form of a map.
pub open spec fn map_text(m: RecoveryMapFile) -> Seq<char> {
    title_line() + seq!['\n'] + current_heading() + seq!['\n'] + current_line(m) + seq!['\n']
        + block_heading() + seq!['\n'] + blocks_text(m.blocks@)
}

/// The message for a map text without blocks.
pub open spec fn no_blocks_message() -> Seq<char> {
    "Invalid mapfile: no blocks found"@
}

proof fn lemma_digits_take(d: Seq<char>, j: int, radix: nat)
    requires
        0 <= j < d.len(),
    ensures
        digits_value(d.take(j + 1), radix) == (match (digits_value(d.take(j), radix), digit_value(d[j], radix)) {
            (Some(a), Some(x)) => Some(a * radix + x),
            _ => None::<nat>,
        }),
{
    assert(d.take(j + 1).drop_last() =~= d.take(j));
    assert(d.take(j + 1).last() == d[j]);
}

proof fn lemma_digits_grow(d: Seq<char>, j: int, k: int, radix: nat, x: nat)
    requires
        0 <= j <= k <= d.len(),
        radix >= 1,
        digits_value(d.take(j), radix) == Some(x),
    ensures
        digits_value(d.take(k), radix) matches Some(y) ==> y >= x,
    decreases k - j,
{
    if k > j {
        lemma_digits_grow(d, j, k - 1, radix, x);
        lemma_digits_take(d, k - 1, radix);
        if let Some(a) = digits_value(d.take(k - 1), radix) {
            assert(a * radix >= a) by (nonlinear_arith)
                requires
                    radix >= 1,
                    a >= 0,
            ;
        }
    }
}

/// The value of character `c` as a digit of base `radix` (10 or 16).
fn digit_of(c: char, radix: u64) -> (r: Option<u64>)
    requires
        radix == 10 || radix == 16,
    ensures
        match r {
            Some(v) => digit_value(c, radix as nat) == Some(v as nat),
            None => digit_value(c, radix as nat) is None,
        },
{
    let n = c as u32;
    let v: u64 = if 0x30 <= n && n <= 0x39 {
        (n - 0x30) as u64
    } else if 0x61 <= n && n <= 0x7A {
        (n - 0x61 + 10) as u64
    } else if 0x41 <= n && n <= 0x5A {
        (n - 0x41 + 10) as u64
    } else {
        99
    };
    if v < radix {
        Some(v)
    } else {
        None
    }
}

/// Parses `cs[a..b]` as a number in base `radix`.
fn parse_radix_at(cs: &Vec<char>, a: usize, b: usize, radix: u64) -> (r: Option<u64>)
    requires
        a <= b <= cs@.len(),
        radix == 10 || radix == 16,
    ensures
        r == parse_radix(cs@.subrange(a as int, b as int), radix as nat),
{
    let ghost s = cs@.subrange(a as int, b as int);
    let start = if a < b && cs[a] == '+' {
        a + 1
    } else {
        a
    };
    let ghost d = cs@.subrange(start as int, b as int);
    proof {
        if a < b && cs@[a as int] == '+' {
            assert(d =~= s.drop_first());
        } else {
            assert(d =~= s);
        }
    }
    if start == b {
        return None;
    }
    let mut v: u64 = 0;
    let mut j = start;
    while j < b
        invariant
            a <= start <= j <= b <= cs@.len(),
            radix == 10 || radix == 16,
            d == cs@.subrange(start as int, b as int),
            digits_value(d.take(j - start), radix as nat) == Some(v as nat),
            d.len() > 0,
            parse_radix(cs@.subrange(a as int, b as int), radix as nat) == (match digits_value(d, radix as nat) {
                Some(w) => if w <= u64::MAX {
                    Some(w as u64)
                } else {
                    None
                },
                None => None,
            }),
        decreases b - j,
    {
        proof {
            lemma_digits_take(d, j - start, radix as nat);
            assert(d[j - start] == cs@[j as int]);
        }
        match digit_of(cs[j], radix) {
            Some(x) => {
                match v.checked_mul(radix) {
                    Some(vr) => match vr.checked_add(x) {
                        Some(nv) => {
                            v = nv;
                        },
                        None => {
                            proof {
                                lemma_digits_grow(d, j - start + 1, d.len() as int, radix as nat, (v * radix + x) as nat);
                                assert(d.take(d.len() as int) =~= d);
                            }
                            return None;
                        },
                    },
                    None => {
                        proof {
                            assert(v * radix + x > u64::MAX) by (nonlinear_arith)
                                requires
                                    v * radix > u64::MAX,
                                    x >= 0,
                            ;
                            lemma_digits_grow(d, j - start + 1, d.len() as int, radix as nat, (v * radix + x) as nat);
                            assert(d.take(d.len() as int) =~= d);
                        }
                        return None;
                    },
                }
            },
            None => {
                proof {
                    lemma_digits_none(d, j - start + 1, d.len() as int, radix as nat);
                    assert(d.take(d.len() as int) =~= d);
                }
                return None;
            },
        }
        j += 1;
    }
    proof {
        assert(d.take(b - start) =~= d);
    }
    Some(v)
}

proof fn lemma_digits_none(d: Seq<char>, j: int, k: int, radix: nat)
    requires
        0 <= j <= k <= d.len(),
        digits_value(d.take(j), radix) is None,
    ensures
        digits_value(d.take(k), radix) is None,
    decreases k - j,
{
    if k > j {
        lemma_digits_none(d, j, k - 1, radix);
        lemma_digits_take(d, k - 1, radix);
    }
}

/// Parses `cs[a..b]` as a number of a map.
fn parse_number_at(cs: &Vec<char>, a: usize, b: usize) -> (r: Option<u64>)
    requires
        a <= b <= cs@.len(),
    ensures
        r == parse_number(cs@.subrange(a as int, b as int)),
{
    let ghost s = cs@.subrange(a as int, b as int);
    if b - a >= 2 && cs[a] == '0' && (cs[a + 1] == 'x' || cs[a + 1] == 'X') {
        proof {
            assert(s.skip(2) =~= cs@.subrange(a + 2, b as int));
        }
        parse_radix_at(cs, a + 2, b, 16)
    } else {
        parse_radix_at(cs, a, b, 10)
    }
}

fn is_space(c: char) -> (r: bool)
    ensures
        r == is_white_space(c),
{
    let n = c as u32;
    (0x09 <= n && n <= 0x0D) || n == 0x20 || n == 0x85 || n == 0xA0 || n == 0x1680 || (0x2000 <= n
        && n <= 0x200A) || n == 0x2028 || n == 0x2029 || n == 0x202F || n == 0x205F || n == 0x3000
}

/// The words of `cs[a..b]`, as ranges of `cs`.
fn word_ranges(cs: &Vec<char>, a: usize, b: usize) -> (r: Vec<(usize, usize)>)
    requires
        a <= b <= cs@.len(),
    ensures
        r@.len() == words(cs@.subrange(a as int, b as int)).len(),
        forall|k: int|
            0 <= k < r@.len() ==> a <= (#[trigger] r@[k]).0 < r@[k].1 <= b && cs@.subrange(
                r@[k].0 as int,
                r@[k].1 as int,
            ) == words(cs@.subrange(a as int, b as int))[k],
{
    let ghost full = words(cs@.subrange(a as int, b as int));
    let mut r: Vec<(usize, usize)> = Vec::new();
    let mut k = a;
    while k < b
        invariant
            a <= k <= b <= cs@.len(),
            full == words(cs@.subrange(a as int, b as int)),
            full == r@.map_values(|p: (usize, usize)| cs@.subrange(p.0 as int, p.1 as int)) + words(
                cs@.subrange(k as int, b as int),
            ),
            forall|m: int| 0 <= m < r@.len() ==> a <= (#[trigger] r@[m]).0 < r@[m].1 <= k,
        decreases b - k,
    {
        let ghost u = cs@.subrange(k as int, b as int);
        if is_space(cs[k]) {
            proof {
                assert(u[0] == cs@[k as int]);
                assert(u.drop_first() =~= cs@.subrange(k + 1, b as int));
            }
            k += 1;
        } else {
            let st = k;
            k += 1;
            while k < b && !is_space(cs[k])
                invariant
                    st < k <= b <= cs@.len(),
                    u == cs@.subrange(st as int, b as int),
                    space_from(u, 1) == space_from(u, k - st),
                decreases b - k,
            {
                proof {
                    assert(u[k - st] == cs@[k as int]);
                }
                k += 1;
            }
            proof {
                assert(u[0] == cs@[st as int]);
                if k < b {
                    assert(u[k - st] == cs@[k as int]);
                }
                assert(space_from(u, k - st) == k - st);
                assert(u.subrange(0, k - st) =~= cs@.subrange(st as int, k as int));
                assert(u.subrange(k - st, u.len() as int) =~= cs@.subrange(k as int, b as int));
            }
            let ghost before = r@;
            r.push((st, k));
            proof {
                assert(r@.map_values(|p: (usize, usize)| cs@.subrange(p.0 as int, p.1 as int)) =~= before.map_values(
                    |p: (usize, usize)| cs@.subrange(p.0 as int, p.1 as int),
                ).push(cs@.subrange(st as int, k as int)));
            }
        }
    }
    proof {
        assert(cs@.subrange(k as int, b as int) =~= Seq::<char>::empty());
        assert(full =~= r@.map_values(|p: (usize, usize)| cs@.subrange(p.0 as int, p.1 as int)));
        assert forall|m: int| 0 <= m < r@.len() implies cs@.subrange((#[trigger] r@[m]).0 as int, r@[m].1 as int)
            == full[m] by {
            assert(full[m] == r@.map_values(|p: (usize, usize)| cs@.subrange(p.0 as int, p.1 as int))[m]);
        }
    }
    r
}

fn status_from_char(c: char) -> (r: Option<BlockStatus>)
    ensures
        r == status_of_char(c),
{
    if c == '?' {
        Some(BlockStatus::NonTried)
    } else if c == '+' {
        Some(BlockStatus::Finished)
    } else if c == '-' {
        Some(BlockStatus::BadSector)
    } else if c == '/' {
        Some(BlockStatus::NonTrimmed)
    } else {
        None
    }
}

/// Applies the line `cs[a..b]` to the state.
fn apply_line_at(
    cs: &Vec<char>,
    a: usize,
    b: usize,
    pos: &mut u64,
    st: &mut BlockStatus,
    blocks: &mut Vec<MapBlock>,
)
    requires
        a <= b <= cs@.len(),
    ensures
        (*final(pos), *final(st), final(blocks)@) == apply_line(
            cs@.subrange(a as int, b as int),
            (*old(pos), *old(st), old(blocks)@),
        ),
{
    let ghost l = cs@.subrange(a as int, b as int);
    let w = word_ranges(cs, a, b);
    if w.len() == 0 {
        return;
    }
    let (s0, e0) = w[0];
    proof {
        assert(words(l)[0] == cs@.subrange(s0 as int, e0 as int));
        assert(words(l)[0][0] == cs@[s0 as int]);
    }
    if cs[s0] == '#' {
        return;
    }
    if w.len() == 2 {
        let (s1, e1) = w[1];
        proof {
            assert(words(l)[1] == cs@.subrange(s1 as int, e1 as int));
            assert(words(l)[1][0] == cs@[s1 as int]);
        }
        let p = parse_number_at(cs, s0, e0);
        let c = status_from_char(cs[s1]);
        match (p, c) {
            (Some(p), Some(s)) => {
                *pos = p;
                *st = s;
            },
            _ => {},
        }
    } else if w.len() == 3 {
        let (s1, e1) = w[1];
        let (s2, e2) = w[2];
        proof {
            assert(words(l)[1] == cs@.subrange(s1 as int, e1 as int));
            assert(words(l)[2] == cs@.subrange(s2 as int, e2 as int));
            assert(words(l)[2][0] == cs@[s2 as int]);
        }
        let p = parse_number_at(cs, s0, e0);
        let z = parse_number_at(cs, s1, e1);
        let c = status_from_char(cs[s2]);
        match (p, z, c) {
            (Some(p), Some(z), Some(s)) => {
                blocks.push(MapBlock { pos: p, size: z, status: s });
            },
            _ => {},
        }
    }
}

impl RecoveryMapFile {
    /// Reads a map from its text form: the last valid `pos status` line gives the current
    /// position and status, each valid `pos size status` line gives a block. A text without
    /// blocks is refused.
    pub fn from_text(text: &str) -> (r: Result<RecoveryMapFile>)
        ensures
            read_state(text@).2.len() == 0 ==> (r matches Err(RecoveryError::Other(m)) && m@
                == no_blocks_message()),
            read_state(text@).2.len() > 0 ==> (r matches Ok(m) && m.current_pos == read_state(
                text@,
            ).0 && m.current_status == read_state(text@).1 && m.blocks@ == read_state(text@).2),
    {
        let cs = chars_of(text);
        let n = cs.len();
        let mut pos: u64 = 0;
        let mut st = BlockStatus::NonTried;
        let mut blocks: Vec<MapBlock> = Vec::new();
        let mut i: usize = 0;
        proof {
            assert(cs@.subrange(0, n as int) =~= text@);
        }
        while i < n
            invariant
                n == cs@.len(),
                cs@ == text@,
                i <= n,
                read_state(text@) == apply_lines(
                    text_lines(cs@.subrange(i as int, n as int)),
                    (pos, st, blocks@),
                ),
            decreases n - i,
        {
            let ghost u = cs@.subrange(i as int, n as int);
            let mut e = i;
            while e < n && cs[e] != '\n'
                invariant
                    i <= e <= n == cs@.len(),
                    u == cs@.subrange(i as int, n as int),
                    newline_from(u, 0) == newline_from(u, e - i),
                decreases n - e,
            {
                proof {
                    assert(u[e - i] == cs@[e as int]);
                }
                e += 1;
            }
            proof {
                if e < n {
                    assert(u[e - i] == cs@[e as int]);
                }
                assert(newline_from(u, e - i) == e - i);
            }
            let le = if e > i && cs[e - 1] == '\r' {
                e - 1
            } else {
                e
            };
            proof {
                let line = u.subrange(0, e - i);
                assert(strip_cr(line) =~= cs@.subrange(i as int, le as int));
                let rest = if e - i < u.len() {
                    text_lines(u.subrange(e - i + 1, u.len() as int))
                } else {
                    Seq::empty()
                };
                assert(text_lines(u) == seq![strip_cr(line)] + rest);
                assert((seq![strip_cr(line)] + rest).drop_first() =~= rest);
                if e < n {
                    assert(u.subrange(e - i + 1, u.len() as int) =~= cs@.subrange(e + 1, n as int));
                } else {
                    assert(cs@.subrange(n as int, n as int) =~= Seq::<char>::empty());
                }
            }
            apply_line_at(&cs, i, le, &mut pos, &mut st, &mut blocks);
            i = if e < n {
                e + 1
            } else {
                n
            };
        }
        proof {
            assert(cs@.subrange(n as int, n as int) =~= Seq::<char>::empty());
        }
        if blocks.len() == 0 {
            let m = String::from_str("Invalid mapfile: no blocks found");
            proof {
                reveal_strlit("Invalid mapfile: no blocks found");
            }
            return Err(RecoveryError::Other(m));
        }
        Ok(RecoveryMapFile { current_pos: pos, current_status: st, blocks })
    }
}


/// Writing one more block line extends the text of a prefix of the blocks.
proof fn lemma_blocks_text_take(bs: Seq<MapBlock>, i: int)
    requires
        0 <= i < bs.len(),
    ensures
        blocks_text(bs.take(i + 1)) == blocks_text(bs.take(i)) + block_line(bs[i]) + seq!['\n'],
    decreases i,
{
    if i == 0 {
        assert(bs.take(1).drop_first() =~= Seq::<MapBlock>::empty());
        assert(bs.take(0) =~= Seq::<MapBlock>::empty());
        assert(bs.take(1)[0] == bs[0]);
        assert(blocks_text(Seq::<MapBlock>::empty()) == Seq::<char>::empty());
        assert(blocks_text(bs.take(1)) =~= block_line(bs[0]) + seq!['\n']);
    } else {
        let t = bs.drop_first();
        lemma_blocks_text_take(t, i - 1);
        assert(bs.take(i + 1).drop_first() =~= t.take(i));
        assert(bs.take(i).drop_first() =~= t.take(i - 1));
        assert(t[i - 1] == bs[i]);
        let h = block_line(bs[0]) + seq!['\n'];
        assert(blocks_text(bs.take(i + 1)) == h + blocks_text(t.take(i)));
        assert(blocks_text(bs.take(i)) == h + blocks_text(t.take(i - 1)));
        assert(h + (blocks_text(t.take(i - 1)) + block_line(bs[i]) + seq!['\n']) =~= h + blocks_text(
            t.take(i - 1),
        ) + block_line(bs[i]) + seq!['\n']);
    }
}

/// Appends `0x` and `v` in at least twelve upper-case hexadecimal digits.
fn push_hex_field(s: &mut String, v: u64)
    ensures
        final(s)@ == old(s)@ + hex_field(v),
{
    let ghost start = s@;
    push_char(s, '0');
    push_char(s, 'x');
    push_hex_padded(s, v, 12);
    proof {
        assert(s@ =~= start + hex_field(v));
    }
}

/// Appends the five spaces between fields.
fn push_field_gap(s: &mut String)
    ensures
        final(s)@ == old(s)@ + field_gap(),
{
    let ghost start = s@;
    let mut k: usize = 0;
    while k < 5
        invariant
            k <= 5,
            s@ == start + Seq::new(k as nat, |i: int| ' '),
        decreases 5 - k,
    {
        push_char(s, ' ');
        proof {
            assert(Seq::new((k + 1) as nat, |i: int| ' ') =~= Seq::new(k as nat, |i: int| ' ').push(' '));
        }
        k += 1;
    }
}

impl RecoveryMapFile {
    /// The text form of the map: three comment lines, the current position line and one
    /// line per block, each number as `0x` and at least twelve hexadecimal digits.
    #[verifier::rlimit(40)]
    pub fn to_text(&self) -> (r: String)
        ensures
            r@ == map_text(*self),
    {
        let mut s = String::new();
        push_str(&mut s, "# Antigravity Data Recovery Suite Mapfile");
        push_char(&mut s, '\n');
        push_str(&mut s, "# Current_pos          Current_status");
        push_char(&mut s, '\n');
        push_hex_field(&mut s, self.current_pos);
        push_field_gap(&mut s);
        push_char(&mut s, self.current_status.to_char());
        push_char(&mut s, '\n');
        push_str(&mut s, "#      pos                size        status");
        push_char(&mut s, '\n');
        let ghost head = s@;
        proof {
            assert(head =~= title_line() + seq!['\n'] + current_heading() + seq!['\n'] + current_line(
                *self,
            ) + seq!['\n'] + block_heading() + seq!['\n']);
            assert(self.blocks@.take(0) =~= Seq::<MapBlock>::empty());
        }
        let mut i: usize = 0;
        while i < self.blocks.len()
            invariant
                i <= self.blocks@.len(),
                s@ == head + blocks_text(self.blocks@.take(i as int)),
            decreases self.blocks@.len() - i,
        {
            let b = self.blocks[i];
            let ghost before = s@;
            push_hex_field(&mut s, b.pos);
            push_field_gap(&mut s);
            push_hex_field(&mut s, b.size);
            push_field_gap(&mut s);
            push_char(&mut s, b.status.to_char());
            push_char(&mut s, '\n');
            proof {
                lemma_blocks_text_take(self.blocks@, i as int);
                assert(s@ =~= before + block_line(b) + seq!['\n']);
                assert(s@ =~= head + blocks_text(self.blocks@.take(i + 1)));
            }
            i += 1;
        }
        proof {
            assert(self.blocks@.take(self.blocks@.len() as int) =~= self.blocks@);
            assert(s@ =~= map_text(*self));
        }
        s
    }
}


/// A character of a number field: a decimal digit, an upper-case hexadecimal letter or `x`.
pub open spec fn field_char(c: char) -> bool {
    let n = c as u32;
    (0x30 <= n && n <= 0x39) || (0x41 <= n && n <= 0x46) || n == 0x78
}

proof fn lemma_hex_digit(d: nat)
    requires
        d < 16,
    ensures
        digit_value(hex_digit(d), 16) == Some(d),
        field_char(hex_digit(d)),
        hex_digit(d) != 'x',
{
}

proof fn lemma_hex_min(v: nat)
    ensures
        digits_value(hex_min(v), 16) == Some(v),
        hex_min(v).len() > 0,
        forall|i: int| 0 <= i < hex_min(v).len() ==> field_char(#[trigger] hex_min(v)[i]) && hex_min(v)[i]
            != 'x',
    decreases v,
{
    if v < 16 {
        lemma_hex_digit(v);
        let h = hex_min(v);
        assert(h.drop_last() =~= Seq::<char>::empty());
        assert(h.last() == hex_digit(v));
        assert(digits_value(Seq::<char>::empty(), 16) == Some(0nat));
    } else {
        lemma_hex_min(v / 16);
        lemma_hex_digit(v % 16);
        let h = hex_min(v);
        assert(h.drop_last() =~= hex_min(v / 16));
        assert(h.last() == hex_digit(v % 16));
        assert((v / 16) * 16 + v % 16 == v);
        assert forall|i: int| 0 <= i < h.len() implies field_char(#[trigger] h[i]) && h[i] != 'x' by {
            if i < h.len() - 1 {
                assert(h[i] == hex_min(v / 16)[i]);
            }
        }
    }
}

proof fn lemma_zero_digits(k: nat)
    ensures
        digits_value(Seq::new(k, |i: int| '0'), 16) == Some(0nat),
    decreases k,
{
    if k > 0 {
        lemma_zero_digits((k - 1) as nat);
        assert(Seq::new(k, |i: int| '0').drop_last() =~= Seq::new((k - 1) as nat, |i: int| '0'));
    }
}

proof fn lemma_leading_zeros(k: nat, d: Seq<char>)
    ensures
        digits_value(Seq::new(k, |i: int| '0') + d, 16) == (if d.len() == 0 {
            Some(0nat)
        } else {
            digits_value(d, 16)
        }),
    decreases d.len(),
{
    let z = Seq::new(k, |i: int| '0');
    if d.len() == 0 {
        assert(z + d =~= z);
        lemma_zero_digits(k);
    } else {
        lemma_leading_zeros(k, d.drop_last());
        assert((z + d).drop_last() =~= z + d.drop_last());
        assert((z + d).last() == d.last());
        if d.len() == 1 {
            assert(d.drop_last() =~= Seq::<char>::empty());
        }
    }
}

proof fn lemma_hex_field(v: u64)
    ensures
        parse_number(hex_field(v)) == Some(v),
        hex_field(v).len() > 2,
        forall|i: int| 0 <= i < hex_field(v).len() ==> field_char(#[trigger] hex_field(v)[i]),
{
    lemma_hex_min(v as nat);
    let h = hex_min(v as nat);
    let p = hex_padded(v as nat, 12);
    let f = hex_field(v);
    if h.len() < 12 {
        lemma_leading_zeros((12 - h.len()) as nat, h);
    }
    assert(digits_value(p, 16) == Some(v as nat));
    assert(f.skip(2) =~= p);
    assert(p.len() > 0);
    assert(p[0] != '+') by {
        if h.len() < 12 {
            assert(p[0] == '0');
        } else {
            assert(field_char(h[0]));
        }
    }
    assert forall|i: int| 0 <= i < f.len() implies field_char(#[trigger] f[i]) by {
        if i >= 2 {
            assert(f[i] == p[i - 2]);
            if h.len() < 12 && i - 2 < 12 - h.len() {
                assert(p[i - 2] == '0');
            } else if h.len() < 12 {
                assert(p[i - 2] == h[i - 2 - (12 - h.len())]);
            } else {
                assert(p[i - 2] == h[i - 2]);
            }
        }
    }
}

/// The line feed of a line followed by a line feed is the one after it.
proof fn lemma_newline_after(l: Seq<char>, rest: Seq<char>, k: int)
    requires
        0 <= k <= l.len(),
        forall|i: int| 0 <= i < l.len() ==> #[trigger] l[i] != '\n',
    ensures
        newline_from(l + seq!['\n'] + rest, k) == l.len(),
    decreases l.len() - k,
{
    let t = l + seq!['\n'] + rest;
    if k < l.len() {
        assert(t[k] == l[k]);
        lemma_newline_after(l, rest, k + 1);
    } else {
        assert(t[k] == '\n');
    }
}

/// The lines of a line, a line feed and more text.
proof fn lemma_text_lines_cons(l: Seq<char>, rest: Seq<char>)
    requires
        forall|i: int| 0 <= i < l.len() ==> #[trigger] l[i] != '\n',
        l.len() == 0 || l.last() != '\r',
    ensures
        text_lines(l + seq!['\n'] + rest) == seq![l] + text_lines(rest),
{
    let t = l + seq!['\n'] + rest;
    lemma_newline_after(l, rest, 0);
    assert(t.subrange(0, l.len() as int) =~= l);
    assert(t.subrange(l.len() as int + 1, t.len() as int) =~= rest);
    assert(strip_cr(l) == l);
}

proof fn lemma_space_after_word(a: Seq<char>, rest: Seq<char>, k: int)
    requires
        1 <= k <= a.len(),
        forall|i: int| 0 <= i < a.len() ==> !is_white_space(#[trigger] a[i]),
        rest.len() == 0 || is_white_space(rest[0]),
    ensures
        space_from(a + rest, k) == a.len(),
    decreases a.len() - k,
{
    let s = a + rest;
    if k < a.len() {
        assert(s[k] == a[k]);
        lemma_space_after_word(a, rest, k + 1);
    } else if rest.len() > 0 {
        assert(s[k] == rest[0]);
    }
}

/// A word followed by white space or nothing is the first word.
proof fn lemma_words_word(a: Seq<char>, rest: Seq<char>)
    requires
        a.len() > 0,
        forall|i: int| 0 <= i < a.len() ==> !is_white_space(#[trigger] a[i]),
        rest.len() == 0 || is_white_space(rest[0]),
    ensures
        words(a + rest) == seq![a] + words(rest),
{
    let s = a + rest;
    assert(s[0] == a[0]);
    lemma_space_after_word(a, rest, 1);
    assert(s.subrange(0, a.len() as int) =~= a);
    assert(s.subrange(a.len() as int, s.len() as int) =~= rest);
}

/// Leading white space adds no word.
proof fn lemma_words_space(g: Seq<char>, rest: Seq<char>)
    requires
        forall|i: int| 0 <= i < g.len() ==> is_white_space(#[trigger] g[i]),
    ensures
        words(g + rest) == words(rest),
    decreases g.len(),
{
    if g.len() > 0 {
        let s = g + rest;
        assert(s[0] == g[0]);
        assert(s.drop_first() =~= g.drop_first() + rest);
        assert forall|i: int| 0 <= i < g.drop_first().len() implies is_white_space(
            #[trigger] g.drop_first()[i],
        ) by {
            assert(g.drop_first()[i] == g[i + 1]);
        }
        lemma_words_space(g.drop_first(), rest);
    } else {
        assert(g + rest =~= rest);
    }
}

proof fn lemma_field_words(f: Seq<char>, rest: Seq<char>)
    requires
        f.len() > 0,
        forall|i: int| 0 <= i < f.len() ==> field_char(#[trigger] f[i]),
    ensures
        words(f + field_gap() + rest) == seq![f] + words(rest),
{
    assert forall|i: int| 0 <= i < f.len() implies !is_white_space(#[trigger] f[i]) by {
        assert(field_char(f[i]));
    }
    assert(f + field_gap() + rest =~= f + (field_gap() + rest));
    lemma_words_word(f, field_gap() + rest);
    lemma_words_space(field_gap(), rest);
}

proof fn lemma_status_word(c: BlockStatus)
    ensures
        words(seq![status_char(c)]) == seq![seq![status_char(c)]],
        status_of_char(status_char(c)) == Some(c),
{
    let w = seq![status_char(c)];
    assert(!is_white_space(status_char(c)));
    lemma_words_word(w, Seq::empty());
    assert(w + Seq::<char>::empty() =~= w);
    assert(words(Seq::<char>::empty()) == Seq::<Seq<char>>::empty());
    assert(seq![w] + Seq::<Seq<char>>::empty() =~= seq![w]);
}

proof fn lemma_current_line(m: RecoveryMapFile, st: MapState)
    ensures
        apply_line(current_line(m), st) == (m.current_pos, m.current_status, st.2),
        forall|i: int| 0 <= i < current_line(m).len() ==> #[trigger] current_line(m)[i] != '\n',
        current_line(m).last() != '\r',
{
    let f = hex_field(m.current_pos);
    let c = seq![status_char(m.current_status)];
    lemma_hex_field(m.current_pos);
    lemma_status_word(m.current_status);
    lemma_field_words(f, c);
    let l = current_line(m);
    let w = words(l);
    assert(w =~= seq![f, c]);
    assert(w[0][0] == f[0]);
    assert(field_char(f[0]));
    assert forall|i: int| 0 <= i < l.len() implies #[trigger] l[i] != '\n' by {
        if i < f.len() {
            assert(l[i] == f[i]);
            assert(field_char(f[i]));
        } else if i < f.len() + 5 {
            assert(l[i] == ' ');
        } else {
            assert(l[i] == status_char(m.current_status));
        }
    }
    assert(l.last() == status_char(m.current_status));
}

proof fn lemma_block_line(b: MapBlock, st: MapState)
    ensures
        apply_line(block_line(b), st) == (st.0, st.1, st.2.push(b)),
        forall|i: int| 0 <= i < block_line(b).len() ==> #[trigger] block_line(b)[i] != '\n',
        block_line(b).last() != '\r',
{
    let f = hex_field(b.pos);
    let g = hex_field(b.size);
    let c = seq![status_char(b.status)];
    lemma_hex_field(b.pos);
    lemma_hex_field(b.size);
    lemma_status_word(b.status);
    lemma_field_words(g, c);
    lemma_field_words(f, g + field_gap() + c);
    let l = block_line(b);
    assert(l =~= f + field_gap() + (g + field_gap() + c));
    let w = words(l);
    assert(w =~= seq![f, g, c]);
    assert(w[0][0] == f[0]);
    assert(field_char(f[0]));
    assert forall|i: int| 0 <= i < l.len() implies #[trigger] l[i] != '\n' by {
        if i < f.len() {
            assert(l[i] == f[i]);
            assert(field_char(f[i]));
        } else if i < f.len() + 5 {
            assert(l[i] == ' ');
        } else if i < f.len() + 5 + g.len() {
            assert(l[i] == g[i - f.len() - 5]);
            assert(field_char(g[i - f.len() - 5]));
        } else if i < f.len() + 10 + g.len() {
            assert(l[i] == ' ');
        } else {
            assert(l[i] == status_char(b.status));
        }
    }
    assert(l.last() == status_char(b.status));
}

proof fn lemma_apply_lines_cons(l: Seq<char>, rest: Seq<Seq<char>>, st: MapState)
    ensures
        apply_lines(seq![l] + rest, st) == apply_lines(rest, apply_line(l, st)),
{
    assert((seq![l] + rest).drop_first() =~= rest);
    assert((seq![l] + rest)[0] == l);
}

proof fn lemma_blocks_text_read(bs: Seq<MapBlock>, st: MapState)
    ensures
        apply_lines(text_lines(blocks_text(bs)), st) == (st.0, st.1, st.2 + bs),
    decreases bs.len(),
{
    if bs.len() == 0 {
        assert(st.2 + bs =~= st.2);
        assert(text_lines(Seq::<char>::empty()) == Seq::<Seq<char>>::empty());
    } else {
        let l = block_line(bs[0]);
        lemma_block_line(bs[0], st);
        lemma_text_lines_cons(l, blocks_text(bs.drop_first()));
        lemma_apply_lines_cons(l, text_lines(blocks_text(bs.drop_first())), st);
        lemma_blocks_text_read(bs.drop_first(), apply_line(l, st));
        assert(st.2.push(bs[0]) + bs.drop_first() =~= st.2 + bs);
    }
}

proof fn lemma_comment_line(l: Seq<char>, st: MapState)
    requires
        l.len() > 0,
        l[0] == '#',
    ensures
        apply_line(l, st) == st,
{
    lemma_space_from_bounds(l, 1);
    let w = words(l);
    assert(!is_white_space(l[0]));
    assert(w[0] == l.subrange(0, space_from(l, 1)));
    assert(w[0][0] == l[0]);
}

/// Reading the text form of a map gives back its current position, its current status and
/// its blocks, in order.
pub proof fn lemma_map_text_round_trip(m: RecoveryMapFile)
    ensures
        read_state(map_text(m)) == (m.current_pos, m.current_status, m.blocks@),
{
    reveal_strlit("# Antigravity Data Recovery Suite Mapfile");
    reveal_strlit("# Current_pos          Current_status");
    reveal_strlit("#      pos                size        status");
    let t = title_line();
    let h = current_heading();
    let b = block_heading();
    let c = current_line(m);
    let bt = blocks_text(m.blocks@);
    let st0: MapState = (0u64, BlockStatus::NonTried, Seq::empty());
    lemma_current_line(m, st0);
    assert(map_text(m) =~= t + seq!['\n'] + (h + seq!['\n'] + (c + seq!['\n'] + (b + seq!['\n'] + bt))));
    lemma_text_lines_cons(b, bt);
    lemma_text_lines_cons(c, b + seq!['\n'] + bt);
    lemma_text_lines_cons(h, c + seq!['\n'] + (b + seq!['\n'] + bt));
    lemma_text_lines_cons(t, h + seq!['\n'] + (c + seq!['\n'] + (b + seq!['\n'] + bt)));
    let rest_b = text_lines(bt);
    let rest_c = seq![b] + rest_b;
    let rest_h = seq![c] + rest_c;
    lemma_comment_line(t, st0);
    lemma_apply_lines_cons(t, seq![h] + rest_h, st0);
    lemma_comment_line(h, st0);
    lemma_apply_lines_cons(h, rest_h, st0);
    lemma_apply_lines_cons(c, rest_c, st0);
    let st1: MapState = (m.current_pos, m.current_status, Seq::empty());
    lemma_comment_line(b, st1);
    lemma_apply_lines_cons(b, rest_b, st1);
    lemma_blocks_text_read(m.blocks@, st1);
    assert(Seq::<MapBlock>::empty() + m.blocks@ =~= m.blocks@);
}

} // verus!
