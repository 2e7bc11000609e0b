use vstd::prelude::*;

use crate::text::hex_digit_val;
use crate::text::hex_digit_value;
use crate::text::is_hex_digit;
use crate::text::is_space_char;
use crate::text::lemma_split_from_acc;
use crate::text::split_from;
use crate::text::tokens;
use vstd::string::StrSliceExecFns;

verus! {

/// One position of a compiled pattern: a byte that must appear exactly, or a
/// wildcard that accepts any byte.
#[derive(Debug, Clone, Copy, PartialEq, Eq, Structural)]
pub enum PatternByte {
    Exact(u8),
    Wildcard,
}

/// The terminal failures of the library: a signature token that is neither a
/// two-digit hex byte nor a wildcard, a signature with no tokens at all, and
/// a failure to attach to the target process (the platform layer supplies
/// the cause text).
#[derive(Debug)]
pub enum PatternError {
    InvalidHex(String),
    EmptyPattern,
    ProcessError(String),
}

/// A compiled signature: a non-empty ordered sequence of match tokens.
#[derive(Debug, Clone)]
pub struct Pattern {
    bytes: Vec<PatternByte>,
}

impl View for Pattern {
    type V = Seq<PatternByte>;

    closed spec fn view(&self) -> Seq<PatternByte> {
        self.bytes@
    }
}

/// Whether the token `t` accepts the byte `b`.
pub open spec fn token_matches(t: PatternByte, b: u8) -> bool {
    match t {
        PatternByte::Exact(v) => b == v,
        PatternByte::Wildcard => true,
    }
}

/// Whether `pat` matches `data` at position `off`: the whole window fits
/// inside the buffer and every token accepts the byte at its position.
pub open spec fn match_at(pat: Seq<PatternByte>, data: Seq<u8>, off: int) -> bool {
    &&& 0 <= off
    &&& off + pat.len() <= data.len()
    &&& forall|i: int| 0 <= i < pat.len() ==> token_matches(pat[i], data[off + i])
}

/// A wildcard field: the literal `?`, or `xx` in any capitalisation.
pub open spec fn is_wildcard_token(t: Seq<char>) -> bool {
    ||| (t.len() == 1 && t[0] == '?')
    ||| (t.len() == 2 && (t[0] == 'x' || t[0] == 'X') && (t[1] == 'x' || t[1] == 'X'))
}

/// An exact-byte field: exactly two hexadecimal digits.
pub open spec fn is_hex_byte_token(t: Seq<char>) -> bool {
    t.len() == 2 && is_hex_digit(t[0]) && is_hex_digit(t[1])
}

/// A field that the signature grammar accepts.
pub open spec fn token_valid(t: Seq<char>) -> bool {
    is_wildcard_token(t) || is_hex_byte_token(t)
}

/// The compiled form of a valid field.
pub open spec fn token_byte(t: Seq<char>) -> PatternByte {
    if is_wildcard_token(t) {
        PatternByte::Wildcard
    } else {
        PatternByte::Exact((hex_digit_val(t[0]) * 16 + hex_digit_val(t[1])) as u8)
    }
}

/// The compiled forms of a list of fields.
pub open spec fn tokens_bytes(ts: Seq<Seq<char>>) -> Seq<PatternByte> {
    ts.map_values(|t: Seq<char>| token_byte(t))
}

/// The position of the first field that the grammar rejects; the length of
/// the list when every field is acceptable.
pub open spec fn first_invalid(ts: Seq<Seq<char>>) -> int
    decreases ts.len(),
{
    if ts.len() == 0 {
        0
    } else if !token_valid(ts[0]) {
        0
    } else {
        1 + first_invalid(ts.drop_first())
    }
}

/// The pattern, if any, that a signature text compiles to: one token per
/// white-space-separated field, provided there is at least one field and
/// every field is a wildcard or a two-digit hexadecimal byte.
pub open spec fn compiles_to(s: Seq<char>) -> Option<Seq<PatternByte>> {
    let ts = tokens(s);
    if ts.len() > 0 && first_invalid(ts) == ts.len() {
        Some(tokens_bytes(ts))
    } else {
        None
    }
}

proof fn lemma_first_invalid_in_range(ts: Seq<Seq<char>>)
    ensures
        0 <= first_invalid(ts) <= ts.len(),
    decreases ts.len(),
{
    if ts.len() > 0 && token_valid(ts[0]) {
        lemma_first_invalid_in_range(ts.drop_first());
    }
}

proof fn lemma_first_invalid_all_valid(ts: Seq<Seq<char>>)
    requires
        forall|k: int| 0 <= k < ts.len() ==> token_valid(#[trigger] ts[k]),
    ensures
        first_invalid(ts) == ts.len(),
    decreases ts.len(),
{
    if ts.len() > 0 {
        lemma_first_invalid_all_valid(ts.drop_first());
    }
}

proof fn lemma_first_invalid_at(ts: Seq<Seq<char>>, j: int)
    requires
        0 <= j < ts.len(),
        forall|k: int| 0 <= k < j ==> token_valid(#[trigger] ts[k]),
        !token_valid(ts[j]),
    ensures
        first_invalid(ts) == j,
    decreases j,
{
    if j > 0 {
        assert(forall|k: int| 0 <= k < j - 1 ==> ts.drop_first()[k] == ts[k + 1]);
        lemma_first_invalid_at(ts.drop_first(), j - 1);
    }
}

/// Law: a signature that compiles yields one token per white-space-separated
/// field, so two spellings with the same field count (say `xx` against `?`
/// wildcards) compile to patterns of equal length.
pub proof fn lemma_compiled_token_count(s: Seq<char>)
    ensures
        compiles_to(s) matches Some(p) ==> p.len() == tokens(s).len(),
{
}

/// Reads the field `s[a .. b]` as a pattern token, if the grammar accepts
/// it.
fn classify_token(s: &str, a: usize, b: usize) -> (r: Option<PatternByte>)
    requires
        a < b <= s@.len(),
    ensures
        r == (if token_valid(s@.subrange(a as int, b as int)) {
            Some(token_byte(s@.subrange(a as int, b as int)))
        } else {
            None::<PatternByte>
        }),
{
    let ghost t = s@.subrange(a as int, b as int);
    let len = b - a;
    if len == 1 {
        let c = s.get_char(a);
        assert(t[0] == c);
        if c == '?' {
            Some(PatternByte::Wildcard)
        } else {
            None
        }
    } else if len == 2 {
        let c0 = s.get_char(a);
        let c1 = s.get_char(a + 1);
        assert(t[0] == c0 && t[1] == c1);
        if (c0 == 'x' || c0 == 'X') && (c1 == 'x' || c1 == 'X') {
            Some(PatternByte::Wildcard)
        } else {
            let h = hex_digit_value(c0);
            let l = hex_digit_value(c1);
            match (h, l) {
                (Some(hv), Some(lv)) => Some(PatternByte::Exact(16 * hv + lv)),
                _ => None,
            }
        }
    } else {
        None
    }
}

impl Pattern {
    /// Compiles a textual signature: white-space-separated fields, each a
    /// two-digit hexadecimal byte or a wildcard (`xx` in any capitalisation,
    /// or `?`).  The first unacceptable field is reported in
    /// `InvalidHex`; a signature with no fields at all is `EmptyPattern`.
    pub fn from_string(pattern: &str) -> (r: Result<Pattern, PatternError>)
        ensures
            ({
                let ts = tokens(pattern@);
                let fi = first_invalid(ts);
                if fi < ts.len() {
                    r matches Err(PatternError::InvalidHex(t)) && t@ == ts[fi]
                } else if ts.len() == 0 {
                    r == Err::<Pattern, PatternError>(PatternError::EmptyPattern)
                } else {
                    r matches Ok(p) && p@ == tokens_bytes(ts) && p@.len() == ts.len()
                }
            }),
            r is Ok <==> compiles_to(pattern@) is Some,
            r matches Ok(p) ==> compiles_to(pattern@) == Some(p@),
    {
        let ghost s = pattern@;
        let n = pattern.unicode_len();
        let mut bytes: Vec<PatternByte> = Vec::new();
        let mut tok_start: usize = 0;
        let mut in_token: bool = false;
        let ghost mut acc: Seq<Seq<char>> = Seq::empty();
        proof {
            lemma_first_invalid_in_range(tokens(s));
        }
        for i in 0..n
            invariant
                n == s.len(),
                s == pattern@,
                in_token ==> tok_start < i && i <= n,
                tokens(s) == split_from(
                    s,
                    i as int,
                    if in_token {
                        s.subrange(tok_start as int, i as int)
                    } else {
                        Seq::empty()
                    },
                    acc,
                ),
                forall|k: int| 0 <= k < acc.len() ==> token_valid(#[trigger] acc[k]),
                bytes@ == tokens_bytes(acc),
        {
            let ghost cur: Seq<char> = if in_token {
                s.subrange(tok_start as int, i as int)
            } else {
                Seq::empty()
            };
            let c = pattern.get_char(i);
            assert(c == s[i as int]);
            if is_space_char(c) {
                if in_token {
                    match classify_token(pattern, tok_start, i) {
                        Some(pb) => {
                            bytes.push(pb);
                            proof {
                                assert(tokens_bytes(acc.push(cur)) =~= tokens_bytes(acc).push(
                                    token_byte(cur),
                                ));
                                acc = acc.push(cur);
                            }
                            in_token = false;
                        },
                        None => {
                            proof {
                                lemma_split_from_acc(s, i as int, cur, acc);
                                lemma_split_from_acc(
                                    s,
                                    i as int + 1,
                                    Seq::empty(),
                                    Seq::<Seq<char>>::empty().push(cur),
                                );
                                let ts = tokens(s);
                                assert(ts == acc + (Seq::<Seq<char>>::empty().push(cur)
                                    + split_from(
                                    s,
                                    i as int + 1,
                                    Seq::empty(),
                                    Seq::empty(),
                                )));
                                assert(ts[acc.len() as int] == cur);
                                assert(forall|k: int|
                                    0 <= k < acc.len() ==> ts[k] == acc[k] && token_valid(
                                        #[trigger] ts[k],
                                    ));
                                lemma_first_invalid_at(ts, acc.len() as int);
                            }
                            let t = pattern.substring_char(tok_start, i);
                            return Err(PatternError::InvalidHex(t.to_owned()));
                        },
                    }
                }
            } else {
                if !in_token {
                    tok_start = i;
                    in_token = true;
                    assert(cur.push(s[i as int]) =~= s.subrange(i as int, i as int + 1));
                } else {
                    assert(cur.push(s[i as int]) =~= s.subrange(tok_start as int, i as int + 1));
                }
            }
        }
        let ghost cur: Seq<char> = if in_token {
            s.subrange(tok_start as int, n as int)
        } else {
            Seq::empty()
        };
        if in_token {
            assert(tokens(s) == acc.push(cur));
            match classify_token(pattern, tok_start, n) {
                Some(pb) => {
                    bytes.push(pb);
                    proof {
                        assert(tokens_bytes(acc.push(cur)) =~= tokens_bytes(acc).push(
                            token_byte(cur),
                        ));
                        acc = acc.push(cur);
                    }
                },
                None => {
                    proof {
                        let ts = tokens(s);
                        assert(ts[acc.len() as int] == cur);
                        assert(forall|k: int|
                            0 <= k < acc.len() ==> ts[k] == acc[k] && token_valid(
                                #[trigger] ts[k],
                            ));
                        lemma_first_invalid_at(ts, acc.len() as int);
                    }
                    let t = pattern.substring_char(tok_start, n);
                    return Err(PatternError::InvalidHex(t.to_owned()));
                },
            }
        }
        proof {
            assert(tokens(s) == acc);
            lemma_first_invalid_all_valid(acc);
        }
        if bytes.is_empty() {
            assert(acc.len() == 0);
            Err(PatternError::EmptyPattern)
        } else {
            Ok(Pattern { bytes })
        }
    }

    /// Wraps an explicit token sequence; only emptiness is rejected.
    pub fn from_bytes(bytes: Vec<PatternByte>) -> (r: Result<Pattern, PatternError>)
        ensures
            bytes@.len() == 0 ==> r == Err::<Pattern, PatternError>(PatternError::EmptyPattern),
            bytes@.len() > 0 ==> (r matches Ok(p) && p@ == bytes@),
    {
        if bytes.is_empty() {
            return Err(PatternError::EmptyPattern);
        }
        Ok(Pattern { bytes })
    }

    /// Positional matcher: true exactly when the pattern fits inside `data`
    /// at `offset` and every non-wildcard token equals the byte there.  In
    /// particular any offset whose window would run past the end of the
    /// buffer answers false.
    pub fn matches(&self, data: &[u8], offset: usize) -> (r: bool)
        ensures
            r == match_at(self@, data@, offset as int),
            offset + self@.len() > data@.len() ==> r == false,
    {
        let n = self.bytes.len();
        let dlen = data.len();
        if n > dlen || offset > dlen - n {
            return false;
        }
        for i in 0..n
            invariant
                n == self@.len(),
                dlen == data@.len(),
                n <= dlen,
                offset <= dlen - n,
                forall|k: int| 0 <= k < i ==> token_matches(self@[k], data@[offset + k]),
        {
            match self.bytes[i] {
                PatternByte::Exact(expected) => {
                    if data[offset + i] != expected {
                        assert(!token_matches(self@[i as int], data@[offset + i]));
                        return false;
                    }
                }
                PatternByte::Wildcard => {}
            }
        }
        true
    }

    /// The number of tokens in the pattern.
    pub fn len(&self) -> (r: usize)
        ensures
            r == self@.len(),
    {
        self.bytes.len()
    }

    /// Whether the pattern has no tokens; false for every pattern the
    /// constructors hand out.
    pub fn is_empty(&self) -> (r: bool)
        ensures
            r == (self@.len() == 0),
    {
        self.bytes.is_empty()
    }
}

} // verus!
