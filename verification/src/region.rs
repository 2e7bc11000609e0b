use vstd::prelude::*;

use crate::text::hex_digit_val;
use crate::text::hex_digit_value;
use crate::text::is_hex_digit;
use crate::text::is_space_char;
use crate::text::split_from;
use crate::text::tokens;
use vstd::std_specs::iter::IteratorSpec;

verus! {

broadcast use vstd::string::group_string_axioms;

/// One contiguous readable span of the target process's address space at
/// the moment of enumeration: base address and byte count.  Entries are
/// neither merged nor deduplicated; a stale entry simply fails to read
/// later.
#[derive(Debug, Clone, Copy, PartialEq, Eq, Structural)]
pub struct MemoryRegion {
    pub start: usize,
    pub size: usize,
}

/// The memory state value of a committed Windows region.
pub const MEM_COMMIT: u32 = 0x1000;

/// The Windows protection bit of a guard page.
pub const PAGE_GUARD: u32 = 0x100;

/// The Windows protection value of an inaccessible page.
pub const PAGE_NOACCESS: u32 = 0x01;

/// The read bit of a macOS region protection value.
pub const VM_PROT_READ: i32 = 0x01;

/// The retention rule for Windows region queries: only a committed region
/// that is neither guarded nor inaccessible is scanned.
pub fn region_is_scannable(state: u32, protect: u32) -> (r: bool)
    ensures
        r == (state == MEM_COMMIT && protect & PAGE_GUARD == 0 && protect & PAGE_NOACCESS == 0),
{
    state == MEM_COMMIT && protect & PAGE_GUARD == 0 && protect & PAGE_NOACCESS == 0
}

/// The retention rule for macOS region queries: only a region whose
/// protection includes the read bit is scanned.
pub fn protection_is_readable(protection: i32) -> (r: bool)
    ensures
        r == (protection & VM_PROT_READ != 0),
{
    protection & VM_PROT_READ != 0
}

/// The value of a hexadecimal numeral, most significant digit first.
pub open spec fn hex_val(t: Seq<char>) -> int
    decreases t.len(),
{
    if t.len() == 0 {
        0
    } else {
        hex_val(t.drop_last()) * 16 + hex_digit_val(t.last())
    }
}

/// Whether every character of `t` is a hexadecimal digit.
pub open spec fn all_hex(t: Seq<char>) -> bool {
    forall|k: int| 0 <= k < t.len() ==> is_hex_digit(#[trigger] t[k])
}

/// Whether `t` is a hexadecimal numeral whose value fits an address: at
/// least one digit, digits only, value within `usize`.
pub open spec fn hex_fits(t: Seq<char>) -> bool {
    t.len() > 0 && all_hex(t) && hex_val(t) <= usize::MAX
}

proof fn lemma_hex_val_nonneg(t: Seq<char>)
    ensures
        hex_val(t) >= 0,
    decreases t.len(),
{
    if t.len() > 0 {
        lemma_hex_val_nonneg(t.drop_last());
    }
}

proof fn lemma_hex_val_step(t: Seq<char>, i: int)
    requires
        0 <= i < t.len(),
    ensures
        hex_val(t.take(i + 1)) == hex_val(t.take(i)) * 16 + hex_digit_val(t[i]),
{
    assert(t.take(i + 1).drop_last() =~= t.take(i));
    assert(t.take(i + 1).last() == t[i]);
}

proof fn lemma_hex_val_prefix_le(t: Seq<char>, i: int)
    requires
        0 <= i <= t.len(),
    ensures
        hex_val(t.take(i)) <= hex_val(t),
    decreases t.len() - i,
{
    if i < t.len() {
        lemma_hex_val_step(t, i);
        lemma_hex_val_nonneg(t.take(i));
        lemma_hex_val_prefix_le(t, i + 1);
    } else {
        assert(t.take(i) =~= t);
    }
}

/// Reads the characters `chars[a .. b]` as a hexadecimal numeral; anything
/// that is not a pure hexadecimal numeral fitting an address is nothing.
fn parse_hex_range(chars: &Vec<char>, a: usize, b: usize) -> (r: Option<usize>)
    requires
        a <= b <= chars@.len(),
    ensures
        ({
            let t = chars@.subrange(a as int, b as int);
            r == (if hex_fits(t) {
                Some(hex_val(t) as usize)
            } else {
                None::<usize>
            })
        }),
{
    let ghost t = chars@.subrange(a as int, b as int);
    if a == b {
        return None;
    }
    let mut acc: usize = 0;
    for k in a..b
        invariant
            a <= k <= b <= chars@.len(),
            t == chars@.subrange(a as int, b as int),
            forall|m: int| 0 <= m < k - a ==> is_hex_digit(#[trigger] t[m]),
            acc == hex_val(t.take(k - a)),
    {
        let c = chars[k];
        assert(c == t[k - a]);
        match hex_digit_value(c) {
            None => {
                return None;
            },
            Some(d) => {
                proof {
                    lemma_hex_val_step(t, k - a);
                }
                match acc.checked_mul(16) {
                    None => {
                        proof {
                            lemma_hex_val_prefix_le(t, k - a + 1);
                        }
                        return None;
                    },
                    Some(s16) => {
                        match s16.checked_add(d as usize) {
                            None => {
                                proof {
                                    lemma_hex_val_prefix_le(t, k - a + 1);
                                }
                                return None;
                            },
                            Some(v) => {
                                acc = v;
                            },
                        }
                    },
                }
            },
        }
    }
    assert(t.take(b - a) =~= t);
    Some(acc)
}

/// Finds the white-space-separated fields of `chars` as index ranges, in
/// order; each range is non-empty and holds no separator.
fn split_fields(chars: &Vec<char>) -> (r: Vec<(usize, usize)>)
    ensures
        r@.len() == tokens(chars@).len(),
        forall|k: int|
            0 <= k < r@.len() ==> {
                let p = #[trigger] r@[k];
                &&& p.0 < p.1 <= chars@.len()
                &&& chars@.subrange(p.0 as int, p.1 as int) == tokens(chars@)[k]
            },
{
    let ghost s = chars@;
    let n = chars.len();
    let mut out: Vec<(usize, usize)> = Vec::new();
    let mut tok_start: usize = 0;
    let mut in_token: bool = false;
    let ghost mut acc: Seq<Seq<char>> = Seq::empty();
    for i in 0..n
        invariant
            n == s.len(),
            s == chars@,
            in_token ==> tok_start < i && i <= n,
            tokens(s) == split_from(
                s,
                i as int,
                if in_token {
                    s.subrange(tok_start as int, i as int)
                } else {
                    Seq::empty()
                },
                acc,
            ),
            out@.len() == acc.len(),
            forall|k: int|
                0 <= k < out@.len() ==> {
                    let p = #[trigger] out@[k];
                    &&& p.0 < p.1 <= s.len()
                    &&& s.subrange(p.0 as int, p.1 as int) == acc[k]
                },
    {
        let ghost cur: Seq<char> = if in_token {
            s.subrange(tok_start as int, i as int)
        } else {
            Seq::empty()
        };
        let c = chars[i];
        assert(c == s[i as int]);
        if is_space_char(c) {
            if in_token {
                out.push((tok_start, i));
                proof {
                    acc = acc.push(cur);
                }
                in_token = false;
            }
        } else {
            if !in_token {
                tok_start = i;
                in_token = true;
                assert(cur.push(s[i as int]) =~= s.subrange(i as int, i as int + 1));
            } else {
                assert(cur.push(s[i as int]) =~= s.subrange(tok_start as int, i as int + 1));
            }
        }
    }
    if in_token {
        out.push((tok_start, n));
        proof {
            acc = acc.push(s.subrange(tok_start as int, n as int));
        }
    }
    assert(tokens(s) == acc);
    out
}

/// The pieces of `t` between its dashes, empty pieces kept: a well-formed
/// address range `start-end` has exactly two.
pub open spec fn dash_split_from(t: Seq<char>, i: int, cur: Seq<char>, acc: Seq<Seq<char>>) -> Seq<
    Seq<char>,
>
    decreases t.len() - i,
{
    if i < 0 || i >= t.len() {
        acc.push(cur)
    } else if t[i] == '-' {
        dash_split_from(t, i + 1, Seq::empty(), acc.push(cur))
    } else {
        dash_split_from(t, i + 1, cur.push(t[i]), acc)
    }
}

/// The pieces of `t` between its dashes, empty pieces kept.
pub open spec fn dash_split(t: Seq<char>) -> Seq<Seq<char>> {
    dash_split_from(t, 0, Seq::empty(), Seq::empty())
}

/// Splits `chars[a .. b]` at every dash, as index ranges over `chars`.
fn split_dashes(chars: &Vec<char>, a: usize, b: usize) -> (r: Vec<(usize, usize)>)
    requires
        a <= b <= chars@.len(),
    ensures
        ({
            let t = chars@.subrange(a as int, b as int);
            &&& r@.len() == dash_split(t).len()
            &&& forall|k: int|
                0 <= k < r@.len() ==> {
                    let p = #[trigger] r@[k];
                    &&& a <= p.0 <= p.1 <= b
                    &&& chars@.subrange(p.0 as int, p.1 as int) == dash_split(t)[k]
                }
        }),
{
    let ghost t = chars@.subrange(a as int, b as int);
    let mut out: Vec<(usize, usize)> = Vec::new();
    let mut piece_start: usize = a;
    let ghost mut acc: Seq<Seq<char>> = Seq::empty();
    assert(chars@.subrange(a as int, a as int) =~= Seq::<char>::empty());
    for i in a..b
        invariant
            a <= piece_start <= i <= b <= chars@.len(),
            t == chars@.subrange(a as int, b as int),
            dash_split(t) == dash_split_from(
                t,
                i - a,
                chars@.subrange(piece_start as int, i as int),
                acc,
            ),
            out@.len() == acc.len(),
            forall|k: int|
                0 <= k < out@.len() ==> {
                    let p = #[trigger] out@[k];
                    &&& a <= p.0 <= p.1 <= b
                    &&& chars@.subrange(p.0 as int, p.1 as int) == acc[k]
                },
    {
        let ghost cur: Seq<char> = chars@.subrange(piece_start as int, i as int);
        let c = chars[i];
        assert(c == t[i - a]);
        if c == '-' {
            out.push((piece_start, i));
            proof {
                acc = acc.push(cur);
                assert(chars@.subrange(i as int + 1, i as int + 1) =~= Seq::<char>::empty());
            }
            piece_start = i + 1;
        } else {
            assert(cur.push(t[i - a]) =~= chars@.subrange(piece_start as int, i as int + 1));
        }
    }
    out.push((piece_start, b));
    proof {
        acc = acc.push(chars@.subrange(piece_start as int, b as int));
    }
    assert(dash_split(t) == acc);
    out
}

/// The region one memory-map line describes, if any: the line must have at
/// least two fields, the first `start-end` with both bounds hexadecimal
/// numerals in ascending order, and the second — the permissions — must
/// begin with the read flag `r`.  Every other line is skipped silently.
pub open spec fn line_region(line: Seq<char>) -> Option<MemoryRegion> {
    let parts = tokens(line);
    if parts.len() < 2 {
        None
    } else {
        let addrs = dash_split(parts[0]);
        if addrs.len() != 2 {
            None
        } else if !(parts[1].len() > 0 && parts[1][0] == 'r') {
            None
        } else if hex_fits(addrs[0]) && hex_fits(addrs[1]) && hex_val(addrs[0]) <= hex_val(
            addrs[1],
        ) {
            Some(
                MemoryRegion {
                    start: hex_val(addrs[0]) as usize,
                    size: (hex_val(addrs[1]) - hex_val(addrs[0])) as usize,
                },
            )
        } else {
            None
        }
    }
}

/// The zero or one regions a line contributes.
pub open spec fn line_regions(line: Seq<char>) -> Seq<MemoryRegion> {
    match line_region(line) {
        Some(r) => seq![r],
        None => Seq::empty(),
    }
}

fn parse_line(line: &Vec<char>) -> (r: Option<MemoryRegion>)
    ensures
        r == line_region(line@),
{
    let fields = split_fields(line);
    if fields.len() < 2 {
        return None;
    }
    let f0 = fields[0];
    let f1 = fields[1];
    let dashes = split_dashes(line, f0.0, f0.1);
    if dashes.len() != 2 {
        return None;
    }
    assert(line@[f1.0 as int] == tokens(line@)[1][0]);
    if line[f1.0] != 'r' {
        return None;
    }
    let d0 = dashes[0];
    let d1 = dashes[1];
    let start_v = parse_hex_range(line, d0.0, d0.1);
    let end_v = parse_hex_range(line, d1.0, d1.1);
    proof {
        let addrs = dash_split(tokens(line@)[0]);
        assert(line@.subrange(d0.0 as int, d0.1 as int) == addrs[0]);
        assert(line@.subrange(d1.0 as int, d1.1 as int) == addrs[1]);
        lemma_hex_val_nonneg(addrs[0]);
        lemma_hex_val_nonneg(addrs[1]);
    }
    match (start_v, end_v) {
        (Some(sv), Some(ev)) => {
            if ev >= sv {
                Some(MemoryRegion { start: sv, size: ev - sv })
            } else {
                None
            }
        },
        _ => None,
    }
}

/// The readable regions of a memory-map text from position `i` on, given
/// the partial line `cur` read so far and the regions `acc` already found.
pub open spec fn maps_from(s: Seq<char>, i: int, cur: Seq<char>, acc: Seq<MemoryRegion>) -> Seq<
    MemoryRegion,
>
    decreases s.len() - i,
{
    if i < 0 || i >= s.len() {
        if cur.len() == 0 {
            acc
        } else {
            acc + line_regions(cur)
        }
    } else if s[i] == '\n' {
        maps_from(s, i + 1, Seq::empty(), acc + line_regions(cur))
    } else {
        maps_from(s, i + 1, cur.push(s[i]), acc)
    }
}

/// The readable regions that a memory-map text describes, in line order.
pub open spec fn maps_regions(s: Seq<char>) -> Seq<MemoryRegion> {
    maps_from(s, 0, Seq::empty(), Seq::empty())
}

/// Parses the text of a process memory map, line by line: each retained
/// line contributes the region between its two hexadecimal addresses;
/// lines that are malformed or not readable are skipped, never reported.
pub fn parse_maps(content: &str) -> (r: Vec<MemoryRegion>)
    ensures
        r@ == maps_regions(content@),
{
    let ghost s = content@;
    let mut out: Vec<MemoryRegion> = Vec::new();
    let mut line: Vec<char> = Vec::new();
    let mut it = content.chars();
    let ghost mut i: int = 0;
    proof {
        assert(it.remaining() =~= s.subrange(0, s.len() as int));
    }
    loop
        invariant
            0 <= i <= s.len(),
            s == content@,
            it.remaining() == s.subrange(i, s.len() as int),
            maps_regions(s) == maps_from(s, i, line@, out@),
        ensures
            i == s.len(),
            maps_regions(s) == maps_from(s, i, line@, out@),
        decreases s.len() - i,
    {
        let ghost prev = it.remaining();
        match it.next() {
            Some(c) => {
                proof {
                    assert(prev.len() > 0);
                    assert(c == s[i]);
                    assert(it.remaining() =~= s.subrange(i + 1, s.len() as int));
                }
                if c == '\n' {
                    let reg = parse_line(&line);
                    let ghost out0 = out@;
                    match reg {
                        Some(r0) => {
                            proof {
                                assert(out0 + line_regions(line@) =~= out0.push(r0));
                            }
                            out.push(r0);
                        },
                        None => {
                            proof {
                                assert(out0 + line_regions(line@) =~= out0);
                            }
                        },
                    }
                    line.clear();
                } else {
                    line.push(c);
                }
                proof {
                    i = i + 1;
                }
            },
            None => {
                proof {
                    assert(prev.len() == 0);
                    assert(i == s.len());
                }
                break ;
            },
        }
    }
    if line.len() > 0 {
        let reg = parse_line(&line);
        let ghost out0 = out@;
        match reg {
            Some(r0) => {
                proof {
                    assert(out0 + line_regions(line@) =~= out0.push(r0));
                }
                out.push(r0);
            },
            None => {
                proof {
                    assert(out0 + line_regions(line@) =~= out0);
                }
            },
        }
    }
    out
}

} // verus!
