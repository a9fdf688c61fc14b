//! The streaming wire-protocol codec.
//!
//! A frame is either a multi-bulk array (`*N\r\n` followed by `N` bulk
//! strings `$M\r\n<M bytes>\r\n`) or an inline line of whitespace-separated,
//! optionally quoted tokens terminated by a newline. The parsers are
//! incremental: handed a buffer and a cursor they either consume one whole
//! frame, report that more bytes are needed, or report a fatal protocol
//! error. The executable parsers are proved to return exactly what the
//! spec-level parsers (`parse_frame` and its helpers) describe.
use vstd::prelude::*;
use vstd::string::StringSliceAdditionalSpecFns;
use crate::reply::str_bytes_vec;

verus! {

/// Outcome of parsing one frame, at the specification level.
pub enum Parse {
    /// A whole frame was consumed; `end` is the cursor just past it.
    Complete { args: Seq<Seq<u8>>, end: int },
    /// The buffer holds only part of a frame; the cursor does not move.
    Incomplete,
    /// A fatal protocol error; `msg` is the reply text (without framing).
    Fail { msg: Seq<u8> },
}

/// Outcome of scanning a quoted token, at the specification level.
pub enum Quoted {
    /// The closing quote was found; `end` is the index just past it.
    Closed { arg: Seq<u8>, end: int },
    /// A bare newline inside the quotes: a fatal protocol error.
    BareNewline,
    /// The buffer ended before the closing quote: wait for more bytes.
    Open,
}

/// The sequences a vector of byte vectors holds.
pub open spec fn views_of(v: Seq<Vec<u8>>) -> Seq<Seq<u8>> {
    Seq::new(v.len(), |i: int| v[i]@)
}

pub proof fn lemma_views_of_push(v: Seq<Vec<u8>>, x: Vec<u8>)
    ensures
        views_of(v.push(x)) =~= views_of(v).push(x@),
{
    assert forall|k: int| 0 <= k < views_of(v.push(x)).len() implies views_of(v.push(x))[k]
        == views_of(v).push(x@)[k] by {
        if k < v.len() {
            assert(v.push(x)[k] == v[k]);
        } else {
            assert(v.push(x)[k] == x);
        }
    }
}

/// Relates an executable parse result to the spec-level one.
pub open spec fn take_matches(r: TakeResult, p: Parse) -> bool {
    match r {
        TakeResult::Complete { args, end } => p == (Parse::Complete {
            args: views_of(args@),
            end: end as int,
        }),
        TakeResult::Incomplete => p is Incomplete,
        TakeResult::Fail { msg } => p == (Parse::Fail { msg: msg@ }),
    }
}

/// Executable outcome of parsing one frame.
pub enum TakeResult {
    Complete { args: Vec<Vec<u8>>, end: usize },
    Incomplete,
    Fail { msg: Vec<u8> },
}

// ---------------------------------------------------------------------------
// Decimal numbers
// ---------------------------------------------------------------------------

pub open spec fn all_digits(s: Seq<u8>) -> bool {
    forall|k: int| 0 <= k < s.len() ==> 48 <= #[trigger] s[k] <= 57
}

pub open spec fn digits_val(s: Seq<u8>) -> int
    decreases s.len(),
{
    if s.len() == 0 {
        0
    } else {
        digits_val(s.drop_last()) * 10 + (s.last() - 48)
    }
}

/// The digits of an unsigned decimal, after an optional leading `+`.
pub open spec fn num_body(s: Seq<u8>) -> Seq<u8> {
    if s.len() > 0 && s[0] == 43 {
        s.skip(1)
    } else {
        s
    }
}

/// Whether `s` parses as an unsigned length that fits the machine.
pub open spec fn is_valid_num(s: Seq<u8>) -> bool {
    num_body(s).len() > 0 && all_digits(num_body(s)) && digits_val(num_body(s)) <= usize::MAX
}

pub open spec fn num_val(s: Seq<u8>) -> int {
    digits_val(num_body(s))
}

proof fn lemma_all_digits_drop_last(s: Seq<u8>)
    requires
        all_digits(s),
        s.len() > 0,
    ensures
        all_digits(s.drop_last()),
{
    assert forall|k: int| 0 <= k < s.drop_last().len() implies 48 <= #[trigger] s.drop_last()[k]
        <= 57 by {
        assert(s.drop_last()[k] == s[k]);
    }
}

proof fn lemma_digits_val_nonneg(s: Seq<u8>)
    requires
        all_digits(s),
    ensures
        digits_val(s) >= 0,
    decreases s.len(),
{
    if s.len() > 0 {
        lemma_all_digits_drop_last(s);
        lemma_digits_val_nonneg(s.drop_last());
        assert(s.last() >= 48);
    }
}

/// A decimal's value only grows as digits are appended.
proof fn lemma_digits_val_prefix(s: Seq<u8>, k: int)
    requires
        all_digits(s),
        0 <= k <= s.len(),
    ensures
        digits_val(s.take(k)) <= digits_val(s),
    decreases s.len(),
{
    if k == s.len() {
        assert(s.take(k) =~= s);
    } else {
        lemma_all_digits_drop_last(s);
        lemma_digits_val_prefix(s.drop_last(), k);
        lemma_digits_val_nonneg(s.drop_last());
        assert(s.drop_last().take(k) =~= s.take(k));
        assert(s.last() >= 48);
    }
}

pub proof fn lemma_num_val_nonneg(s: Seq<u8>)
    requires
        is_valid_num(s),
    ensures
        num_val(s) >= 0,
{
    lemma_digits_val_nonneg(num_body(s));
}

/// Parses `input[lo..hi]` as an unsigned decimal (optional leading `+`),
/// exactly as `is_valid_num` / `num_val` describe.
pub fn parse_num(input: &Vec<u8>, lo: usize, hi: usize) -> (r: Option<usize>)
    requires
        lo <= hi <= input.len(),
    ensures
        (match r {
            Some(v) => is_valid_num(input@.subrange(lo as int, hi as int)) && v == num_val(
                input@.subrange(lo as int, hi as int),
            ),
            None => !is_valid_num(input@.subrange(lo as int, hi as int)),
        }),
{
    let ghost s = input@.subrange(lo as int, hi as int);
    if hi == lo {
        assert(num_body(s).len() == 0);
        return None;
    }
    let k: usize = if input[lo] == 43 {
        lo + 1
    } else {
        lo
    };
    let ghost body = input@.subrange(k as int, hi as int);
    proof {
        if input@[lo as int] == 43 {
            assert(body =~= num_body(s));
        } else {
            assert(body =~= num_body(s));
        }
    }
    if k == hi {
        assert(num_body(s).len() == 0);
        return None;
    }
    let mut acc: usize = 0;
    let mut idx: usize = k;
    while idx < hi
        invariant
            k <= idx <= hi <= input.len(),
            s == input@.subrange(lo as int, hi as int),
            body == input@.subrange(k as int, hi as int),
            body == num_body(s),
            all_digits(input@.subrange(k as int, idx as int)),
            acc == digits_val(input@.subrange(k as int, idx as int)),
        decreases hi - idx,
    {
        let ghost pre = input@.subrange(k as int, idx as int);
        let b = input[idx];
        if b < 48 || b > 57 {
            assert(body[idx - k] == b);
            assert(!all_digits(body));
            return None;
        }
        let d: usize = (b - 48) as usize;
        let ghost pre2 = input@.subrange(k as int, idx + 1 as int);
        proof {
            assert(pre2.drop_last() =~= pre);
            assert(pre2.last() == b);
            assert(all_digits(pre2)) by {
                assert(forall|t: int|
                    0 <= t < pre2.len() ==> 48 <= #[trigger] pre2[t] <= 57 && (t < pre.len()
                        ==> pre2[t] == pre[t]));
            }
            assert(digits_val(pre2) == digits_val(pre) * 10 + (b - 48));
        }
        let wide: u128 = (acc as u128) * 10 + (d as u128);
        if wide > (usize::MAX as u128) {
            proof {
                if all_digits(body) {
                    lemma_digits_val_prefix(body, idx + 1 - k);
                    assert(body.take(idx + 1 - k) =~= pre2);
                    assert(digits_val(body) > usize::MAX);
                }
            }
            return None;
        }
        acc = wide as usize;
        idx = idx + 1;
    }
    assert(input@.subrange(k as int, idx as int) =~= body);
    Some(acc)
}

// ---------------------------------------------------------------------------
// Protocol error texts
// ---------------------------------------------------------------------------

pub open spec fn msg_unbalanced() -> Seq<u8> {
    "ERR Protocol error: unbalanced quotes in request".spec_bytes()
}

pub open spec fn msg_invalid_multibulk() -> Seq<u8> {
    "ERR Protocol error: invalid multibulk length".spec_bytes()
}

pub open spec fn msg_invalid_bulk() -> Seq<u8> {
    "ERR Protocol error: invalid bulk length".spec_bytes()
}

/// How one byte appears inside an error text: control bytes become a space,
/// other bytes print as the character with that value.
pub open spec fn char_bytes_safe(c: u8) -> Seq<u8> {
    if c < 32 {
        seq![32u8]
    } else if c < 128 {
        seq![c]
    } else {
        seq![(192 + c / 64) as u8, (128 + c % 64) as u8]
    }
}

pub open spec fn msg_expected_dollar(c: u8) -> Seq<u8> {
    "ERR Protocol error: expected '$', got '".spec_bytes() + char_bytes_safe(c) + seq![39u8]
}

fn make_expected_dollar(c: u8) -> (r: Vec<u8>)
    ensures
        r@ == msg_expected_dollar(c),
{
    let mut v = str_bytes_vec("ERR Protocol error: expected '$', got '");
    if c < 32 {
        v.push(32);
    } else if c < 128 {
        v.push(c);
    } else {
        v.push(192 + c / 64);
        v.push(128 + c % 64);
    }
    v.push(39);
    proof {
        assert(v@ =~= msg_expected_dollar(c));
    }
    v
}

// ---------------------------------------------------------------------------
// Hex escapes
// ---------------------------------------------------------------------------

pub open spec fn is_hex_digit(b: u8) -> bool {
    (48 <= b <= 57) || (97 <= b <= 102) || (65 <= b <= 70)
}

pub open spec fn hex_digit_val(b: u8) -> u8 {
    if b <= 57 {
        (b - 48) as u8
    } else if b <= 70 {
        (b - 55) as u8
    } else {
        (b - 87) as u8
    }
}

pub open spec fn hex_pair_val(a: u8, b: u8) -> u8 {
    (hex_digit_val(a) * 16 + hex_digit_val(b)) as u8
}

fn is_hex_byte(b: u8) -> (r: bool)
    ensures
        r == is_hex_digit(b),
{
    (48 <= b && b <= 57) || (97 <= b && b <= 102) || (65 <= b && b <= 70)
}

pub fn hex_to_digit(b: u8) -> (r: u8)
    requires
        is_hex_digit(b),
    ensures
        r == hex_digit_val(b),
        r <= 15,
{
    if b <= 57 {
        b - 48
    } else if b <= 70 {
        b - 55
    } else {
        b - 87
    }
}

/// Reads the two-hex-digit escape payload at `i`, if it is all there.
pub fn parse_hex_byte(packet: &Vec<u8>, i: usize) -> (r: Option<u8>)
    ensures
        r == (if i + 1 < packet@.len() && is_hex_digit(packet@[i as int]) && is_hex_digit(
            packet@[i as int + 1],
        ) {
            Some(hex_pair_val(packet@[i as int], packet@[i as int + 1]))
        } else {
            None::<u8>
        }),
{
    if packet.len() >= 2 && i <= packet.len() - 2 {
        let a = packet[i];
        let b = packet[i + 1];
        if is_hex_byte(a) && is_hex_byte(b) {
            Some(hex_to_digit(a) * 16 + hex_to_digit(b))
        } else {
            None
        }
    } else {
        None
    }
}

// ---------------------------------------------------------------------------
// Quoted tokens (inline mode)
// ---------------------------------------------------------------------------

/// What a single-letter escape denotes; any letter without a meaning of its
/// own stands for itself (so `\"` and `\\` work as expected).
pub open spec fn escape_value(c: u8) -> u8 {
    if c == 110 {
        10
    } else if c == 114 {
        13
    } else if c == 116 {
        9
    } else if c == 98 {
        8
    } else if c == 97 {
        7
    } else {
        c
    }
}

fn escape_byte(c: u8) -> (r: u8)
    ensures
        r == escape_value(c),
{
    if c == 110 {
        10
    } else if c == 114 {
        13
    } else if c == 116 {
        9
    } else if c == 98 {
        8
    } else if c == 97 {
        7
    } else {
        c
    }
}

/// Scans a quoted token whose opening quote `q` sits just before `i`,
/// accumulating decoded bytes into `acc`.
pub open spec fn parse_quoted(s: Seq<u8>, q: u8, i: int, acc: Seq<u8>) -> Quoted
    decreases s.len() - i,
{
    if i < 0 || i >= s.len() {
        Quoted::Open
    } else if s[i] == 10 {
        Quoted::BareNewline
    } else if s[i] == 92 {
        if i + 1 >= s.len() {
            Quoted::Open
        } else if s[i + 1] == 120 && i + 3 < s.len() && is_hex_digit(s[i + 2]) && is_hex_digit(
            s[i + 3],
        ) {
            parse_quoted(s, q, i + 4, acc.push(hex_pair_val(s[i + 2], s[i + 3])))
        } else if s[i + 1] == 120 {
            parse_quoted(s, q, i + 2, acc.push(120))
        } else {
            parse_quoted(s, q, i + 2, acc.push(escape_value(s[i + 1])))
        }
    } else if s[i] == q {
        Quoted::Closed { arg: acc, end: i + 1 }
    } else {
        parse_quoted(s, q, i + 1, acc.push(s[i]))
    }
}

/// A closed quoted token ends after its opening position and inside the
/// buffer.
pub proof fn lemma_parse_quoted_bounds(s: Seq<u8>, q: u8, i: int, acc: Seq<u8>)
    ensures
        parse_quoted(s, q, i, acc) matches Quoted::Closed { end, .. } ==> i < end <= s.len(),
    decreases s.len() - i,
{
    if i < 0 || i >= s.len() {
    } else if s[i] == 10 {
    } else if s[i] == 92 {
        if i + 1 >= s.len() {
        } else if s[i + 1] == 120 && i + 3 < s.len() && is_hex_digit(s[i + 2]) && is_hex_digit(
            s[i + 3],
        ) {
            lemma_parse_quoted_bounds(s, q, i + 4, acc.push(hex_pair_val(s[i + 2], s[i + 3])));
        } else if s[i + 1] == 120 {
            lemma_parse_quoted_bounds(s, q, i + 2, acc.push(120));
        } else {
            lemma_parse_quoted_bounds(s, q, i + 2, acc.push(escape_value(s[i + 1])));
        }
    } else if s[i] == q {
    } else {
        lemma_parse_quoted_bounds(s, q, i + 1, acc.push(s[i]));
    }
}

enum QuotedTake {
    Closed { arg: Vec<u8>, end: usize },
    BareNewline,
    Open,
}

fn parse_quoted_arg(packet: &Vec<u8>, q: u8, i0: usize) -> (r: QuotedTake)
    requires
        i0 <= packet.len(),
    ensures
        (match r {
            QuotedTake::Closed { arg, end } => parse_quoted(packet@, q, i0 as int, Seq::empty())
                == (Quoted::Closed { arg: arg@, end: end as int }) && i0 < end <= packet.len(),
            QuotedTake::BareNewline => parse_quoted(packet@, q, i0 as int, Seq::empty())
                is BareNewline,
            QuotedTake::Open => parse_quoted(packet@, q, i0 as int, Seq::empty()) is Open,
        }),
{
    let mut arg: Vec<u8> = Vec::new();
    let mut i = i0;
    while i < packet.len()
        invariant
            i0 <= i <= packet.len(),
            parse_quoted(packet@, q, i0 as int, Seq::empty()) == parse_quoted(
                packet@,
                q,
                i as int,
                arg@,
            ),
        decreases packet.len() - i,
    {
        let b = packet[i];
        if b == 10 {
            return QuotedTake::BareNewline;
        } else if b == 92 {
            if packet.len() - i < 2 {
                return QuotedTake::Open;
            }
            let e = packet[i + 1];
            if e == 120 {
                match parse_hex_byte(packet, i + 2) {
                    Some(v) => {
                        arg.push(v);
                        i = i + 4;
                    },
                    None => {
                        arg.push(120);
                        i = i + 2;
                    },
                }
            } else {
                arg.push(escape_byte(e));
                i = i + 2;
            }
        } else if b == q {
            return QuotedTake::Closed { arg, end: i + 1 };
        } else {
            arg.push(b);
            i = i + 1;
        }
    }
    QuotedTake::Open
}

// ---------------------------------------------------------------------------
// Inline frames
// ---------------------------------------------------------------------------

/// Scans an inline frame: `i` is the read position, `start` the beginning of
/// the token being accumulated, `args` the tokens found so far. A newline
/// completes the frame; space separates tokens; a quote opens a quoted token.
pub open spec fn parse_inline_at(s: Seq<u8>, i: int, start: int, args: Seq<Seq<u8>>) -> Parse
    decreases s.len() + 1 - i,
{
    if i < 0 || start < 0 || start > i || i >= s.len() {
        Parse::Incomplete
    } else if s[i] == 32 || s[i] == 10 {
        let tok_end = if s[i] == 10 && i > start && s[i - 1] == 13 {
            i - 1
        } else {
            i
        };
        let args2 = if start != tok_end {
            args.push(s.subrange(start, tok_end))
        } else {
            args
        };
        if s[i] == 10 {
            Parse::Complete { args: args2, end: i + 1 }
        } else {
            parse_inline_at(s, i + 1, i + 1, args2)
        }
    } else if s[i] == 34 || s[i] == 39 {
        match parse_quoted(s, s[i], i + 1, Seq::empty()) {
            Quoted::Closed { arg, end } => {
                proof {
                    lemma_parse_quoted_bounds(s, s[i], i + 1, Seq::empty());
                }
                parse_inline_at(s, end + 1, end + 1, args.push(arg))
            },
            Quoted::BareNewline => Parse::Fail { msg: msg_unbalanced() },
            Quoted::Open => Parse::Incomplete,
        }
    } else {
        parse_inline_at(s, i + 1, start, args)
    }
}

/// A completed inline frame ends after the position the scan began at.
pub proof fn lemma_parse_inline_bounds(s: Seq<u8>, i: int, start: int, args: Seq<Seq<u8>>)
    ensures
        parse_inline_at(s, i, start, args) matches Parse::Complete { end, .. } ==> i < end
            <= s.len(),
    decreases s.len() + 1 - i,
{
    if i < 0 || start < 0 || start > i || i >= s.len() {
    } else if s[i] == 32 || s[i] == 10 {
        let tok_end = if s[i] == 10 && i > start && s[i - 1] == 13 {
            i - 1
        } else {
            i
        };
        let args2 = if start != tok_end {
            args.push(s.subrange(start, tok_end))
        } else {
            args
        };
        if s[i] == 10 {
        } else {
            lemma_parse_inline_bounds(s, i + 1, i + 1, args2);
        }
    } else if s[i] == 34 || s[i] == 39 {
        match parse_quoted(s, s[i], i + 1, Seq::empty()) {
            Quoted::Closed { arg, end } => {
                lemma_parse_quoted_bounds(s, s[i], i + 1, Seq::empty());
                lemma_parse_inline_bounds(s, end + 1, end + 1, args.push(arg));
            },
            Quoted::BareNewline => {},
            Quoted::Open => {},
        }
    } else {
        lemma_parse_inline_bounds(s, i + 1, start, args);
    }
}

fn slice_range_vec(v: &Vec<u8>, a: usize, b: usize) -> (r: Vec<u8>)
    requires
        a <= b <= v.len(),
    ensures
        r@ == v@.subrange(a as int, b as int),
{
    let s = vstd::slice::slice_subrange(v.as_slice(), a, b);
    vstd::slice::slice_to_vec(s)
}

fn push_tok(args: &mut Vec<Vec<u8>>, packet: &Vec<u8>, a: usize, b: usize)
    requires
        a <= b <= packet.len(),
    ensures
        views_of(final(args)@) == views_of(old(args)@).push(packet@.subrange(a as int, b as int)),
{
    let t = slice_range_vec(packet, a, b);
    args.push(t);
    proof {
        lemma_views_of_push(old(args)@, t);
    }
}

/// Parses one inline frame beginning at cursor `ni`.
pub fn take_inline_args(packet: &Vec<u8>, ni: usize) -> (r: TakeResult)
    requires
        ni <= packet.len(),
    ensures
        take_matches(r, parse_inline_at(packet@, ni as int, ni as int, Seq::empty())),
        (r matches TakeResult::Complete { end, .. } ==> ni < end <= packet.len()),
{
    let mut i = ni;
    let mut start = ni;
    let mut args: Vec<Vec<u8>> = Vec::new();
    proof {
        assert(views_of(args@) =~= Seq::<Seq<u8>>::empty());
    }
    while i < packet.len()
        invariant
            ni <= start <= i <= packet.len(),
            parse_inline_at(packet@, ni as int, ni as int, Seq::empty()) == parse_inline_at(
                packet@,
                i as int,
                start as int,
                views_of(args@),
            ),
        decreases packet.len() - i,
    {
        let b = packet[i];
        if b == 32 || b == 10 {
            let tok_end = if b == 10 && i > start && packet[i - 1] == 13 {
                i - 1
            } else {
                i
            };
            if start != tok_end {
                push_tok(&mut args, packet, start, tok_end);
            }
            if b == 10 {
                return TakeResult::Complete { args, end: i + 1 };
            }
            start = i + 1;
            i = i + 1;
        } else if b == 34 || b == 39 {
            match parse_quoted_arg(packet, b, i + 1) {
                QuotedTake::Closed { arg, end } => {
                    let ghost prev = views_of(args@);
                    let ghost argv = arg@;
                    proof {
                        lemma_views_of_push(args@, arg);
                    }
                    args.push(arg);
                    if end >= packet.len() {
                        // The separator that must follow the closing quote is
                        // not buffered yet, so the frame cannot end here.
                        proof {
                            assert(parse_inline_at(
                                packet@,
                                end + 1 as int,
                                end + 1 as int,
                                prev.push(argv),
                            ) is Incomplete);
                        }
                        return TakeResult::Incomplete;
                    }
                    i = end + 1;
                    start = end + 1;
                },
                QuotedTake::BareNewline => {
                    return TakeResult::Fail { msg: str_bytes_vec(
                        "ERR Protocol error: unbalanced quotes in request",
                    ) };
                },
                QuotedTake::Open => {
                    return TakeResult::Incomplete;
                },
            }
        } else {
            i = i + 1;
        }
    }
    TakeResult::Incomplete
}

// ---------------------------------------------------------------------------
// Multi-bulk frames
// ---------------------------------------------------------------------------

/// The least `j >= i` with a `\r\n` pair at `j - 1`, `j`.
pub open spec fn spec_find_crlf(s: Seq<u8>, i: int) -> Option<int>
    decreases s.len() - i,
{
    if i < 1 || i >= s.len() {
        None
    } else if s[i - 1] == 13 && s[i] == 10 {
        Some(i)
    } else {
        spec_find_crlf(s, i + 1)
    }
}

pub proof fn lemma_find_crlf_bounds(s: Seq<u8>, i: int)
    ensures
        spec_find_crlf(s, i) matches Some(j) ==> i <= j < s.len() && s[j - 1] == 13 && s[j] == 10,
    decreases s.len() - i,
{
    if i < 1 || i >= s.len() {
    } else if s[i - 1] == 13 && s[i] == 10 {
    } else {
        lemma_find_crlf_bounds(s, i + 1);
    }
}

fn find_crlf(packet: &Vec<u8>, from: usize) -> (r: Option<usize>)
    requires
        1 <= from,
    ensures
        (match r {
            Some(j) => spec_find_crlf(packet@, from as int) == Some(j as int) && from <= j
                < packet.len() && packet@[j - 1] == 13 && packet@[j as int] == 10,
            None => spec_find_crlf(packet@, from as int) is None,
        }),
{
    let mut i = from;
    while i < packet.len()
        invariant
            1 <= from <= i,
            spec_find_crlf(packet@, from as int) == spec_find_crlf(packet@, i as int),
        decreases packet.len() - i,
    {
        if packet[i - 1] == 13 && packet[i] == 10 {
            return Some(i);
        }
        i = i + 1;
    }
    None
}

/// Consumes `remaining` bulk strings (`$M\r\n<M bytes>\r\n`) starting at `i`.
pub open spec fn parse_bulks(s: Seq<u8>, i: int, remaining: int, args: Seq<Seq<u8>>) -> Parse
    decreases remaining,
{
    if remaining <= 0 {
        Parse::Complete { args, end: i }
    } else {
        match spec_find_crlf(s, i) {
            None => Parse::Incomplete,
            Some(j) => {
                if s[i] != 36 {
                    Parse::Fail { msg: msg_expected_dollar(s[i]) }
                } else if !is_valid_num(s.subrange(i + 1, j - 1)) {
                    Parse::Fail { msg: msg_invalid_bulk() }
                } else {
                    let m = num_val(s.subrange(i + 1, j - 1));
                    if s.len() < j + 3 + m {
                        Parse::Incomplete
                    } else {
                        parse_bulks(s, j + 3 + m, remaining - 1, args.push(s.subrange(j + 1, j + 1 + m)))
                    }
                }
            },
        }
    }
}

pub proof fn lemma_parse_bulks_bounds(s: Seq<u8>, i: int, remaining: int, args: Seq<Seq<u8>>)
    requires
        0 <= i <= s.len(),
    ensures
        parse_bulks(s, i, remaining, args) matches Parse::Complete { end, .. } ==> i <= end
            <= s.len(),
    decreases remaining,
{
    if remaining <= 0 {
    } else {
        lemma_find_crlf_bounds(s, i);
        match spec_find_crlf(s, i) {
            None => {},
            Some(j) => {
                if s[i] != 36 {
                } else if !is_valid_num(s.subrange(i + 1, j - 1)) {
                } else {
                    let m = num_val(s.subrange(i + 1, j - 1));
                    lemma_digits_val_nonneg(num_body(s.subrange(i + 1, j - 1)));
                    if s.len() < j + 3 + m {
                    } else {
                        lemma_parse_bulks_bounds(
                            s,
                            j + 3 + m,
                            remaining - 1,
                            args.push(s.subrange(j + 1, j + 1 + m)),
                        );
                    }
                }
            },
        }
    }
}

/// Parses one multi-bulk frame whose `*` sits at cursor `ni`.
pub open spec fn parse_multibulk(s: Seq<u8>, ni: int) -> Parse {
    match spec_find_crlf(s, ni + 1) {
        None => Parse::Incomplete,
        Some(j) => {
            if !is_valid_num(s.subrange(ni + 1, j - 1)) {
                Parse::Fail { msg: msg_invalid_multibulk() }
            } else {
                parse_bulks(s, j + 1, num_val(s.subrange(ni + 1, j - 1)), Seq::empty())
            }
        },
    }
}

pub fn take_multibulk_args(input: &Vec<u8>, ni: usize) -> (r: TakeResult)
    requires
        ni < input.len(),
        input@[ni as int] == 42,
    ensures
        take_matches(r, parse_multibulk(input@, ni as int)),
        (r matches TakeResult::Complete { end, .. } ==> ni < end <= input.len()),
{
    match find_crlf(input, ni + 1) {
        None => TakeResult::Incomplete,
        Some(j) => {
            assert(j >= ni + 2) by {
                assert(input@[ni as int] == 42);
            }
            match parse_num(input, ni + 1, j - 1) {
                None => TakeResult::Fail { msg: str_bytes_vec(
                    "ERR Protocol error: invalid multibulk length",
                ) },
                Some(n) => {
                    let ghost s = input@;
                    let mut i: usize = j + 1;
                    let mut remaining: usize = n;
                    let mut args: Vec<Vec<u8>> = Vec::new();
                    proof {
                        assert(views_of(args@) =~= Seq::<Seq<u8>>::empty());
                    }
                    while remaining > 0
                        invariant
                            ni < j + 1 <= i <= input.len(),
                            parse_multibulk(s, ni as int) == parse_bulks(
                                s,
                                j + 1 as int,
                                n as int,
                                Seq::empty(),
                            ),
                            parse_bulks(s, j + 1 as int, n as int, Seq::empty()) == parse_bulks(
                                s,
                                i as int,
                                remaining as int,
                                views_of(args@),
                            ),
                            s == input@,
                        decreases remaining,
                    {
                        match find_crlf(input, i) {
                            None => {
                                return TakeResult::Incomplete;
                            },
                            Some(j2) => {
                                let c = input[i];
                                if c != 36 {
                                    return TakeResult::Fail { msg: make_expected_dollar(c) };
                                }
                                assert(j2 >= i + 2) by {
                                    assert(input@[i as int] == 36);
                                }
                                match parse_num(input, i + 1, j2 - 1) {
                                    None => {
                                        return TakeResult::Fail { msg: str_bytes_vec(
                                            "ERR Protocol error: invalid bulk length",
                                        ) };
                                    },
                                    Some(m) => {
                                        if input.len() - j2 - 1 < 2 || input.len() - j2 - 3 < m {
                                            return TakeResult::Incomplete;
                                        }
                                        let ghost prev = views_of(args@);
                                        let bin = slice_range_vec(input, j2 + 1, j2 + 1 + m);
                                        proof {
                                            lemma_views_of_push(args@, bin);
                                        }
                                        args.push(bin);
                                        i = j2 + 3 + m;
                                        remaining = remaining - 1;
                                    },
                                }
                            },
                        }
                    }
                    TakeResult::Complete { args, end: i }
                },
            }
        },
    }
}

// ---------------------------------------------------------------------------
// Frame dispatch: multi-bulk or inline
// ---------------------------------------------------------------------------

/// One frame starting at cursor `ni`: multi-bulk when the first byte is `*`,
/// inline otherwise; an exhausted buffer is simply incomplete.
pub open spec fn parse_frame(s: Seq<u8>, ni: int) -> Parse {
    if 0 <= ni < s.len() {
        if s[ni] == 42 {
            parse_multibulk(s, ni)
        } else {
            parse_inline_at(s, ni, ni, Seq::empty())
        }
    } else {
        Parse::Incomplete
    }
}

/// Progress: a complete frame always moves the cursor forward, and never
/// past the end of the buffer.
pub proof fn lemma_parse_frame_progress(s: Seq<u8>, ni: int)
    ensures
        parse_frame(s, ni) matches Parse::Complete { end, .. } ==> ni < end <= s.len(),
{
    if 0 <= ni < s.len() {
        if s[ni] == 42 {
            lemma_find_crlf_bounds(s, ni + 1);
            match spec_find_crlf(s, ni + 1) {
                None => {},
                Some(j) => {
                    if !is_valid_num(s.subrange(ni + 1, j - 1)) {
                    } else {
                        lemma_parse_bulks_bounds(
                            s,
                            j + 1,
                            num_val(s.subrange(ni + 1, j - 1)),
                            Seq::empty(),
                        );
                    }
                },
            }
        } else {
            lemma_parse_inline_bounds(s, ni, ni, Seq::empty());
        }
    }
}

/// Parses one frame at cursor `ni`. The result is exactly what the pure
/// `parse_frame` function describes: the same bytes and cursor always give
/// the same outcome, and a complete frame advances the cursor (progress)
/// while an incomplete one leaves it alone.
pub fn take_args(input: &Vec<u8>, ni: usize) -> (r: TakeResult)
    ensures
        take_matches(r, parse_frame(input@, ni as int)),
        (r matches TakeResult::Complete { end, .. } ==> ni < end <= input.len()),
{
    if input.len() > ni {
        if input[ni] == 42 {
            take_multibulk_args(input, ni)
        } else {
            take_inline_args(input, ni)
        }
    } else {
        TakeResult::Incomplete
    }
}

} // verus!
