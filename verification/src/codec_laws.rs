//! Laws of the codec, beyond the contracts of the parsers themselves:
//! appending bytes never changes an already-decided parse (prefix safety),
//! frames may be fed in arbitrary chunks (incremental equivalence), and
//! quoted escapes round-trip.
use vstd::prelude::*;
use crate::codec::{
    Parse,
    Quoted,
    parse_quoted,
    parse_inline_at,
    parse_bulks,
    parse_frame,
    spec_find_crlf,
    lemma_find_crlf_bounds,
    lemma_parse_quoted_bounds,
    lemma_parse_frame_progress,
    is_valid_num,
    num_val,
    is_hex_digit,
    hex_digit_val,
    hex_pair_val,
    escape_value,
};
use crate::session::extract_frames;

verus! {

// ---------------------------------------------------------------------------
// Prefix safety: bytes past a decided parse are never observed.
// ---------------------------------------------------------------------------

proof fn lemma_find_crlf_prefix(s: Seq<u8>, t: Seq<u8>, i: int)
    requires
        spec_find_crlf(s, i) is Some,
    ensures
        spec_find_crlf(s + t, i) == spec_find_crlf(s, i),
    decreases s.len() - i,
{
    if i < 1 || i >= s.len() {
    } else {
        assert((s + t)[i] == s[i]);
        assert((s + t)[i - 1] == s[i - 1]);
        if s[i - 1] == 13 && s[i] == 10 {
        } else {
            lemma_find_crlf_prefix(s, t, i + 1);
        }
    }
}

proof fn lemma_parse_quoted_prefix(s: Seq<u8>, t: Seq<u8>, q: u8, i: int, acc: Seq<u8>)
    requires
        q == 34 || q == 39,
        !(parse_quoted(s, q, i, acc) is Open),
    ensures
        parse_quoted(s + t, q, i, acc) == parse_quoted(s, q, i, acc),
    decreases s.len() - i,
{
    if i < 0 || i >= s.len() {
    } else {
        assert((s + t)[i] == s[i]);
        if s[i] == 10 {
        } else if s[i] == 92 {
            if i + 1 >= s.len() {
            } else {
                assert((s + t)[i + 1] == s[i + 1]);
                if s[i + 1] == 120 && i + 3 < s.len() && is_hex_digit(s[i + 2]) && is_hex_digit(
                    s[i + 3],
                ) {
                    assert((s + t)[i + 2] == s[i + 2] && (s + t)[i + 3] == s[i + 3]);
                    lemma_parse_quoted_prefix(
                        s,
                        t,
                        q,
                        i + 4,
                        acc.push(hex_pair_val(s[i + 2], s[i + 3])),
                    );
                } else if s[i + 1] == 120 {
                    if i + 3 < (s + t).len() && is_hex_digit((s + t)[i + 2]) && is_hex_digit(
                        (s + t)[i + 3],
                    ) {
                        // The extension completes a hex escape that the
                        // shorter buffer could not: the buffer must have
                        // ended inside the escape, so the shorter parse was
                        // still open, which the premise excludes.
                        if i + 3 < s.len() {
                            assert((s + t)[i + 2] == s[i + 2] && (s + t)[i + 3] == s[i + 3]);
                        } else if i + 2 >= s.len() {
                            lemma_parse_quoted_stuck(s, q, i + 2, acc.push(120));
                        } else {
                            assert((s + t)[i + 2] == s[i + 2]);
                            assert(is_hex_digit(s[i + 2]));
                            assert(s[i + 2] != 10 && s[i + 2] != 92 && s[i + 2] != q);
                            lemma_parse_quoted_stuck(s, q, i + 3, acc.push(120).push(s[i + 2]));
                        }
                    } else {
                        lemma_parse_quoted_prefix(s, t, q, i + 2, acc.push(120));
                    }
                } else {
                    lemma_parse_quoted_prefix(s, t, q, i + 2, acc.push(escape_value(s[i + 1])));
                }
            }
        } else if s[i] == q {
        } else {
            lemma_parse_quoted_prefix(s, t, q, i + 1, acc.push(s[i]));
        }
    }
}

/// A quoted scan that reaches past the end of the buffer is open.
proof fn lemma_parse_quoted_stuck(s: Seq<u8>, q: u8, i: int, acc: Seq<u8>)
    requires
        i >= s.len(),
    ensures
        parse_quoted(s, q, i, acc) is Open,
{
}

proof fn lemma_parse_inline_prefix(s: Seq<u8>, t: Seq<u8>, i: int, start: int, args: Seq<Seq<u8>>)
    requires
        !(parse_inline_at(s, i, start, args) is Incomplete),
    ensures
        parse_inline_at(s + t, i, start, args) == parse_inline_at(s, i, start, args),
    decreases s.len() + 1 - i,
{
    if i < 0 || start < 0 || start > i || i >= s.len() {
    } else {
        assert((s + t)[i] == s[i]);
        if s[i] == 32 || s[i] == 10 {
            if i > start {
                assert((s + t)[i - 1] == s[i - 1]);
            }
            let tok_end = if s[i] == 10 && i > start && s[i - 1] == 13 {
                i - 1
            } else {
                i
            };
            assert((s + t).subrange(start, tok_end) =~= s.subrange(start, tok_end));
            let args2 = if start != tok_end {
                args.push(s.subrange(start, tok_end))
            } else {
                args
            };
            if s[i] == 10 {
            } else {
                lemma_parse_inline_prefix(s, t, i + 1, i + 1, args2);
            }
        } else if s[i] == 34 || s[i] == 39 {
            match parse_quoted(s, s[i], i + 1, Seq::empty()) {
                Quoted::Closed { arg, end } => {
                    lemma_parse_quoted_bounds(s, s[i], i + 1, Seq::empty());
                    lemma_parse_quoted_prefix(s, t, s[i], i + 1, Seq::empty());
                    lemma_parse_inline_prefix(s, t, end + 1, end + 1, args.push(arg));
                },
                Quoted::BareNewline => {
                    lemma_parse_quoted_prefix(s, t, s[i], i + 1, Seq::empty());
                },
                Quoted::Open => {},
            }
        } else {
            lemma_parse_inline_prefix(s, t, i + 1, start, args);
        }
    }
}

proof fn lemma_parse_bulks_prefix(s: Seq<u8>, t: Seq<u8>, i: int, rem: int, args: Seq<Seq<u8>>)
    requires
        0 <= i,
        !(parse_bulks(s, i, rem, args) is Incomplete),
    ensures
        parse_bulks(s + t, i, rem, args) == parse_bulks(s, i, rem, args),
    decreases rem,
{
    if rem <= 0 {
    } else {
        match spec_find_crlf(s, i) {
            None => {},
            Some(j) => {
                lemma_find_crlf_bounds(s, i);
                lemma_find_crlf_prefix(s, t, i);
                assert((s + t)[i] == s[i]);
                if s[i] != 36 {
                } else {
                    assert((s + t).subrange(i + 1, j - 1) =~= s.subrange(i + 1, j - 1));
                    if !is_valid_num(s.subrange(i + 1, j - 1)) {
                    } else {
                        let m = num_val(s.subrange(i + 1, j - 1));
                        crate::codec::lemma_num_val_nonneg(s.subrange(i + 1, j - 1));
                        if s.len() < j + 3 + m {
                        } else {
                            assert((s + t).subrange(j + 1, j + 1 + m) =~= s.subrange(
                                j + 1,
                                j + 1 + m,
                            ));
                            lemma_parse_bulks_prefix(
                                s,
                                t,
                                j + 3 + m,
                                rem - 1,
                                args.push(s.subrange(j + 1, j + 1 + m)),
                            );
                        }
                    }
                }
            },
        }
    }
}

/// Prefix safety: once a frame (or a protocol error) is decided, appending
/// bytes to the buffer decides nothing differently; the tail bytes are not
/// observed.
pub proof fn lemma_parse_frame_prefix(s: Seq<u8>, t: Seq<u8>, ni: int)
    requires
        !(parse_frame(s, ni) is Incomplete),
    ensures
        parse_frame(s + t, ni) == parse_frame(s, ni),
{
    if 0 <= ni < s.len() {
        assert((s + t)[ni] == s[ni]);
        if s[ni] == 42 {
            match spec_find_crlf(s, ni + 1) {
                None => {},
                Some(j) => {
                    lemma_find_crlf_bounds(s, ni + 1);
                    lemma_find_crlf_prefix(s, t, ni + 1);
                    assert((s + t).subrange(ni + 1, j - 1) =~= s.subrange(ni + 1, j - 1));
                    if is_valid_num(s.subrange(ni + 1, j - 1)) {
                        lemma_parse_bulks_prefix(
                            s,
                            t,
                            j + 1,
                            num_val(s.subrange(ni + 1, j - 1)),
                            Seq::empty(),
                        );
                    }
                },
            }
        } else {
            lemma_parse_inline_prefix(s, t, ni, ni, Seq::empty());
        }
    }
}

// ---------------------------------------------------------------------------
// Shift: parsing depends only on the bytes from the cursor on.
// ---------------------------------------------------------------------------

proof fn lemma_find_crlf_shift(s: Seq<u8>, d: int, i: int)
    requires
        0 <= d <= i - 1,
        d <= s.len(),
    ensures
        spec_find_crlf(s, i) == (match spec_find_crlf(s.skip(d), i - d) {
            Some(j) => Some(j + d),
            None => None::<int>,
        }),
    decreases s.len() - i,
{
    if i < 1 || i >= s.len() {
    } else {
        assert(s.skip(d)[i - d] == s[i]);
        assert(s.skip(d)[i - d - 1] == s[i - 1]);
        if s[i - 1] == 13 && s[i] == 10 {
        } else {
            lemma_find_crlf_shift(s, d, i + 1);
        }
    }
}

proof fn lemma_parse_quoted_shift(s: Seq<u8>, d: int, q: u8, i: int, acc: Seq<u8>)
    requires
        0 <= d <= i,
        d <= s.len(),
    ensures
        parse_quoted(s, q, i, acc) == (match parse_quoted(s.skip(d), q, i - d, acc) {
            Quoted::Closed { arg, end } => Quoted::Closed { arg, end: end + d },
            r => r,
        }),
    decreases s.len() - i,
{
    if i >= s.len() {
    } else {
        assert(s.skip(d)[i - d] == s[i]);
        if s[i] == 10 {
        } else if s[i] == 92 {
            if i + 1 >= s.len() {
            } else {
                assert(s.skip(d)[i + 1 - d] == s[i + 1]);
                if s[i + 1] == 120 && i + 3 < s.len() && is_hex_digit(s[i + 2]) && is_hex_digit(
                    s[i + 3],
                ) {
                    assert(s.skip(d)[i + 2 - d] == s[i + 2] && s.skip(d)[i + 3 - d] == s[i + 3]);
                    lemma_parse_quoted_shift(s, d, q, i + 4, acc.push(
                        hex_pair_val(s[i + 2], s[i + 3]),
                    ));
                } else if s[i + 1] == 120 {
                    lemma_parse_quoted_shift(s, d, q, i + 2, acc.push(120));
                } else {
                    lemma_parse_quoted_shift(s, d, q, i + 2, acc.push(escape_value(s[i + 1])));
                }
            }
        } else if s[i] == q {
        } else {
            lemma_parse_quoted_shift(s, d, q, i + 1, acc.push(s[i]));
        }
    }
}

proof fn lemma_parse_inline_shift(s: Seq<u8>, d: int, i: int, start: int, args: Seq<Seq<u8>>)
    requires
        0 <= d <= start,
        d <= s.len(),
    ensures
        parse_inline_at(s, i, start, args) == (match parse_inline_at(
            s.skip(d),
            i - d,
            start - d,
            args,
        ) {
            Parse::Complete { args: a, end } => Parse::Complete { args: a, end: end + d },
            r => r,
        }),
    decreases s.len() + 1 - i,
{
    if i < 0 || start < 0 || start > i || i >= s.len() {
    } else {
        assert(s.skip(d)[i - d] == s[i]);
        if s[i] == 32 || s[i] == 10 {
            if i > start {
                assert(s.skip(d)[i - 1 - d] == s[i - 1]);
            }
            let tok_end = if s[i] == 10 && i > start && s[i - 1] == 13 {
                i - 1
            } else {
                i
            };
            assert(s.skip(d).subrange(start - d, tok_end - d) =~= s.subrange(start, tok_end));
            let args2 = if start != tok_end {
                args.push(s.subrange(start, tok_end))
            } else {
                args
            };
            if s[i] == 10 {
            } else {
                lemma_parse_inline_shift(s, d, i + 1, i + 1, args2);
            }
        } else if s[i] == 34 || s[i] == 39 {
            lemma_parse_quoted_shift(s, d, s[i], i + 1, Seq::empty());
            match parse_quoted(s, s[i], i + 1, Seq::empty()) {
                Quoted::Closed { arg, end } => {
                    lemma_parse_quoted_bounds(s, s[i], i + 1, Seq::empty());
                    lemma_parse_inline_shift(s, d, end + 1, end + 1, args.push(arg));
                },
                Quoted::BareNewline => {},
                Quoted::Open => {},
            }
        } else {
            lemma_parse_inline_shift(s, d, i + 1, start, args);
        }
    }
}

proof fn lemma_parse_bulks_shift(s: Seq<u8>, d: int, i: int, rem: int, args: Seq<Seq<u8>>)
    requires
        1 <= d + 1 <= i,
        0 <= d <= s.len(),
    ensures
        parse_bulks(s, i, rem, args) == (match parse_bulks(s.skip(d), i - d, rem, args) {
            Parse::Complete { args: a, end } => Parse::Complete { args: a, end: end + d },
            r => r,
        }),
    decreases rem,
{
    if rem <= 0 {
    } else {
        lemma_find_crlf_shift(s, d, i);
        match spec_find_crlf(s, i) {
            None => {},
            Some(j) => {
                lemma_find_crlf_bounds(s, i);
                assert(s.skip(d)[i - d] == s[i]);
                if s[i] != 36 {
                } else {
                    assert(s.skip(d).subrange(i + 1 - d, j - 1 - d) =~= s.subrange(i + 1, j - 1));
                    if !is_valid_num(s.subrange(i + 1, j - 1)) {
                    } else {
                        let m = num_val(s.subrange(i + 1, j - 1));
                        crate::codec::lemma_num_val_nonneg(s.subrange(i + 1, j - 1));
                        assert(s.skip(d).len() == s.len() - d);
                        if s.len() < j + 3 + m {
                        } else {
                            assert(s.skip(d).subrange(j + 1 - d, j + 1 + m - d) =~= s.subrange(
                                j + 1,
                                j + 1 + m,
                            ));
                            lemma_parse_bulks_shift(
                                s,
                                d,
                                j + 3 + m,
                                rem - 1,
                                args.push(s.subrange(j + 1, j + 1 + m)),
                            );
                        }
                    }
                }
            },
        }
    }
}

/// A frame parse at cursor `ni` sees only the bytes from `ni` on.
pub proof fn lemma_parse_frame_shift(s: Seq<u8>, ni: int)
    requires
        0 <= ni <= s.len(),
    ensures
        parse_frame(s, ni) == (match parse_frame(s.skip(ni), 0) {
            Parse::Complete { args, end } => Parse::Complete { args, end: end + ni },
            r => r,
        }),
{
    if ni < s.len() {
        assert(s.skip(ni)[0] == s[ni]);
        if s[ni] == 42 {
            lemma_find_crlf_shift(s, ni, ni + 1);
            match spec_find_crlf(s, ni + 1) {
                None => {},
                Some(j) => {
                    lemma_find_crlf_bounds(s, ni + 1);
                    assert(s.skip(ni).subrange(1, j - 1 - ni) =~= s.subrange(ni + 1, j - 1));
                    if is_valid_num(s.subrange(ni + 1, j - 1)) {
                        lemma_parse_bulks_shift(
                            s,
                            ni,
                            j + 1,
                            num_val(s.subrange(ni + 1, j - 1)),
                            Seq::empty(),
                        );
                    }
                },
            }
        } else {
            lemma_parse_inline_shift(s, ni, ni, ni, Seq::empty());
        }
    } else {
        assert(s.skip(ni).len() == 0 || ni >= s.len());
    }
}

// ---------------------------------------------------------------------------
// Incremental equivalence
// ---------------------------------------------------------------------------

/// The consumed prefix never runs past the buffer.
pub proof fn lemma_extract_used_bounds(s: Seq<u8>, i: int)
    requires
        0 <= i <= s.len(),
    ensures
        i <= extract_frames(s, i).used <= s.len(),
    decreases s.len() - i,
{
    lemma_parse_frame_progress(s, i);
    match parse_frame(s, i) {
        Parse::Incomplete => {},
        Parse::Fail { msg } => {},
        Parse::Complete { args, end } => {
            lemma_extract_used_bounds(s, end);
        },
    }
}

/// Extraction also sees only the bytes from its cursor on.
pub proof fn lemma_extract_shift(s: Seq<u8>, i: int)
    requires
        0 <= i <= s.len(),
    ensures
        extract_frames(s, i).frames == extract_frames(s.skip(i), 0).frames,
        extract_frames(s, i).used == i + extract_frames(s.skip(i), 0).used,
        extract_frames(s, i).err == extract_frames(s.skip(i), 0).err,
    decreases s.len() - i,
{
    lemma_parse_frame_shift(s, i);
    lemma_parse_frame_progress(s, i);
    lemma_parse_frame_progress(s.skip(i), 0);
    match parse_frame(s, i) {
        Parse::Incomplete => {},
        Parse::Fail { msg } => {},
        Parse::Complete { args, end } => {
            lemma_extract_shift(s, end);
            lemma_extract_shift(s.skip(i), end - i);
            assert(s.skip(i).skip(end - i) =~= s.skip(end));
        },
    }
}

proof fn lemma_extract_append_at(s: Seq<u8>, t: Seq<u8>, i: int)
    requires
        0 <= i <= s.len(),
        extract_frames(s, i).err is None,
    ensures
        extract_frames(s + t, i).frames == extract_frames(s, i).frames + extract_frames(
            s + t,
            extract_frames(s, i).used,
        ).frames,
        extract_frames(s + t, i).used == extract_frames(s + t, extract_frames(s, i).used).used,
        extract_frames(s + t, i).err == extract_frames(s + t, extract_frames(s, i).used).err,
    decreases s.len() - i,
{
    lemma_parse_frame_progress(s, i);
    match parse_frame(s, i) {
        Parse::Incomplete => {
            assert(extract_frames(s, i).frames =~= Seq::<Seq<Seq<u8>>>::empty());
            assert(Seq::<Seq<Seq<u8>>>::empty() + extract_frames(s + t, i).frames =~=
                extract_frames(s + t, i).frames);
        },
        Parse::Fail { msg } => {},
        Parse::Complete { args, end } => {
            lemma_parse_frame_prefix(s, t, i);
            lemma_extract_append_at(s, t, end);
            if args.len() > 0 {
                assert((seq![args] + extract_frames(s, end).frames) + extract_frames(
                    s + t,
                    extract_frames(s, end).used,
                ).frames =~= seq![args] + (extract_frames(s, end).frames + extract_frames(
                    s + t,
                    extract_frames(s, end).used,
                ).frames));
            }
        },
    }
}

/// Incremental equivalence: parsing a buffer, keeping the unconsumed tail,
/// and parsing the tail with the next chunk appended yields the same frames
/// and the same verdict as parsing the whole stream at once. Feeding a
/// stream in any number of chunks follows by applying this at each boundary.
pub proof fn lemma_extract_incremental(s: Seq<u8>, t: Seq<u8>)
    requires
        extract_frames(s, 0).err is None,
    ensures
        extract_frames(s + t, 0).frames == extract_frames(s, 0).frames + extract_frames(
            s.skip(extract_frames(s, 0).used) + t,
            0,
        ).frames,
        extract_frames(s + t, 0).err == extract_frames(s.skip(extract_frames(s, 0).used) + t, 0).err,
{
    let u = extract_frames(s, 0).used;
    lemma_extract_used_bounds(s, 0);
    lemma_extract_append_at(s, t, 0);
    lemma_extract_shift(s + t, u);
    assert((s + t).skip(u) =~= s.skip(u) + t);
}

/// An extraction that already failed keeps failing when bytes arrive.
proof fn lemma_extract_err_append(s: Seq<u8>, t: Seq<u8>, i: int)
    requires
        0 <= i <= s.len(),
        extract_frames(s, i).err is Some,
    ensures
        extract_frames(s + t, i).err is Some,
    decreases s.len() - i,
{
    lemma_parse_frame_progress(s, i);
    match parse_frame(s, i) {
        Parse::Incomplete => {},
        Parse::Fail { msg } => {
            lemma_parse_frame_prefix(s, t, i);
        },
        Parse::Complete { args, end } => {
            lemma_parse_frame_prefix(s, t, i);
            lemma_extract_err_append(s, t, end);
        },
    }
}

/// At its own consumed cursor an extraction finds nothing further.
proof fn lemma_extract_at_used(s: Seq<u8>, i: int)
    requires
        0 <= i <= s.len(),
    ensures
        extract_frames(s, extract_frames(s, i).used).frames == Seq::<Seq<Seq<u8>>>::empty(),
        extract_frames(s, extract_frames(s, i).used).used == extract_frames(s, i).used,
        extract_frames(s, extract_frames(s, i).used).err == extract_frames(s, i).err,
    decreases s.len() - i,
{
    lemma_parse_frame_progress(s, i);
    match parse_frame(s, i) {
        Parse::Incomplete => {},
        Parse::Fail { msg } => {},
        Parse::Complete { args, end } => {
            lemma_extract_at_used(s, end);
        },
    }
}

/// The bytes of a sequence of chunks, in order.
pub open spec fn chunks_concat(chunks: Seq<Seq<u8>>) -> Seq<u8>
    decreases chunks.len(),
{
    if chunks.len() == 0 {
        Seq::empty()
    } else {
        chunks[0] + chunks_concat(chunks.skip(1))
    }
}

/// The frames obtained by feeding the chunks one at a time: each chunk is
/// appended to the unconsumed tail, the frames of that buffer are taken,
/// and the new tail is kept, as the connection pipeline does.
pub open spec fn feed_frames(tail: Seq<u8>, chunks: Seq<Seq<u8>>) -> Seq<Seq<Seq<u8>>>
    decreases chunks.len(),
{
    if chunks.len() == 0 {
        Seq::empty()
    } else {
        let buf = tail + chunks[0];
        let ex = extract_frames(buf, 0);
        if ex.err is Some {
            ex.frames
        } else {
            ex.frames + feed_frames(buf.skip(ex.used), chunks.skip(1))
        }
    }
}

proof fn lemma_feed_chunks_from(tail: Seq<u8>, chunks: Seq<Seq<u8>>)
    requires
        extract_frames(tail, 0).used == 0,
        extract_frames(tail, 0).err is None,
        extract_frames(tail + chunks_concat(chunks), 0).err is None,
    ensures
        feed_frames(tail, chunks) == extract_frames(tail + chunks_concat(chunks), 0).frames,
    decreases chunks.len(),
{
    lemma_parse_frame_progress(tail, 0);
    lemma_extract_used_bounds(tail, 0);
    if chunks.len() == 0 {
        assert(tail + chunks_concat(chunks) =~= tail);
        match parse_frame(tail, 0) {
            Parse::Complete { args, end } => {
                // A complete frame would have moved the consumed cursor.
                lemma_extract_used_bounds(tail, end);
            },
            _ => {},
        }
        assert(extract_frames(tail, 0).frames =~= Seq::<Seq<Seq<u8>>>::empty());
    } else {
        let buf = tail + chunks[0];
        let rest = chunks_concat(chunks.skip(1));
        let whole = tail + chunks_concat(chunks);
        assert(whole =~= buf + rest);
        let ex = extract_frames(buf, 0);
        lemma_extract_used_bounds(buf, 0);
        if ex.err is Some {
            lemma_extract_err_append(buf, rest, 0);
        } else {
            lemma_extract_incremental(buf, rest);
            let tail2 = buf.skip(ex.used);
            lemma_extract_at_used(buf, 0);
            lemma_extract_shift(buf, ex.used);
            assert(extract_frames(tail2, 0).used == 0);
            assert(extract_frames(tail2, 0).err is None);
            assert(extract_frames(tail2 + rest, 0).err is None);
            lemma_feed_chunks_from(tail2, chunks.skip(1));
        }
    }
}

/// Incremental equivalence over any number of chunks: splitting a byte
/// stream into arbitrary chunks and feeding them sequentially, carrying the
/// unconsumed tail from one read to the next, yields the same sequence of
/// frames as parsing the whole stream at once.
pub proof fn lemma_feed_chunks(chunks: Seq<Seq<u8>>)
    requires
        extract_frames(chunks_concat(chunks), 0).err is None,
    ensures
        feed_frames(Seq::empty(), chunks) == extract_frames(chunks_concat(chunks), 0).frames,
{
    assert(Seq::<u8>::empty() + chunks_concat(chunks) =~= chunks_concat(chunks));
    lemma_feed_chunks_from(Seq::empty(), chunks);
}

// ---------------------------------------------------------------------------
// Quote escape round-trip
// ---------------------------------------------------------------------------

/// The uppercase hex digit for a value below sixteen.
pub open spec fn hex_char(v: u8) -> u8 {
    if v < 10 {
        (48 + v) as u8
    } else {
        (55 + v) as u8
    }
}

/// The inline-quoted escape for byte `x`: a letter escape where one exists,
/// otherwise a two-digit hex escape.
pub open spec fn quote_escape(x: u8) -> Seq<u8> {
    if x == 10 {
        seq![92u8, 110u8]
    } else if x == 13 {
        seq![92u8, 114u8]
    } else if x == 9 {
        seq![92u8, 116u8]
    } else if x == 8 {
        seq![92u8, 98u8]
    } else if x == 7 {
        seq![92u8, 97u8]
    } else {
        seq![92u8, 120u8, hex_char(x / 16), hex_char(x % 16)]
    }
}

/// Quote escape round-trip: for every byte, the quoted literal built from
/// its escape parses back to exactly that byte, as the single argument of a
/// complete inline frame.
pub proof fn lemma_quote_escape_round_trip(x: u8, q: u8)
    requires
        q == 34 || q == 39,
    ensures
        ({
            let lit = seq![q] + quote_escape(x) + seq![q, 32u8, 10u8];
            parse_inline_at(lit, 0, 0, Seq::empty()) == (Parse::Complete {
                args: seq![seq![x]],
                end: lit.len() as int,
            })
        }),
{
    let lit = seq![q] + quote_escape(x) + seq![q, 32u8, 10u8];
    let e0 = Seq::<u8>::empty();
    let f0 = Seq::<Seq<u8>>::empty();
    if x == 10 || x == 13 || x == 9 || x == 8 || x == 7 {
        assert(lit.len() == 6);
        assert(lit[0] == q && lit[1] == 92 && lit[3] == q && lit[4] == 32 && lit[5] == 10);
        assert(lit[2] != 120 && escape_value(lit[2]) == x);
        assert(parse_quoted(lit, q, 3, e0.push(x)) == (Quoted::Closed {
            arg: e0.push(x),
            end: 4int,
        }));
        assert(parse_quoted(lit, q, 1, e0) == parse_quoted(lit, q, 3, e0.push(x)));
        assert(parse_inline_at(lit, 0, 0, f0) == parse_inline_at(lit, 5, 5, f0.push(e0.push(x))));
        assert(parse_inline_at(lit, 5, 5, f0.push(e0.push(x))) == (Parse::Complete {
            args: f0.push(e0.push(x)),
            end: 6int,
        }));
        assert(e0.push(x) =~= seq![x]);
        assert(f0.push(e0.push(x)) =~= seq![seq![x]]);
    } else {
        assert(lit.len() == 8);
        assert(lit[0] == q && lit[1] == 92 && lit[2] == 120);
        assert(lit[3] == hex_char(x / 16) && lit[4] == hex_char(x % 16));
        assert(is_hex_digit(lit[3]) && is_hex_digit(lit[4]));
        assert(hex_digit_val(hex_char(x / 16)) == x / 16);
        assert(hex_digit_val(hex_char(x % 16)) == x % 16);
        assert(hex_pair_val(lit[3], lit[4]) == x);
        assert(lit[5] == q && lit[6] == 32 && lit[7] == 10);
        assert(parse_quoted(lit, q, 5, e0.push(x)) == (Quoted::Closed {
            arg: e0.push(x),
            end: 6int,
        }));
        assert(parse_quoted(lit, q, 1, e0) == parse_quoted(lit, q, 5, e0.push(x)));
        assert(parse_inline_at(lit, 0, 0, f0) == parse_inline_at(lit, 7, 7, f0.push(e0.push(x))));
        assert(parse_inline_at(lit, 7, 7, f0.push(e0.push(x))) == (Parse::Complete {
            args: f0.push(e0.push(x)),
            end: 8int,
        }));
        assert(e0.push(x) =~= seq![x]);
        assert(f0.push(e0.push(x)) =~= seq![seq![x]]);
    }
}

} // verus!
