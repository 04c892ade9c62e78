//! The metadata minifier: a single-pass byte transducer with string,
//! comment and whitespace handling.
//!
//! Outside strings and comments, runs of ASCII whitespace collapse to
//! nothing, except that exactly one space survives where removing the run
//! would fuse two alphanumeric tokens or abut a backslash.  `//` opens a
//! line comment dropped through its terminating newline; `/*` opens a
//! block comment dropped through the first `*/`.  Inside a string,
//! delimited by an unescaped quote, every byte passes through unchanged,
//! with one byte of lookahead to recognize escape sequences.

use vstd::prelude::*;

verus! {

/// Where the transducer stands in the input.
#[derive(Debug, Clone, Copy, PartialEq, Eq, Structural)]
pub enum MinState {
    /// Outside strings and comments.
    Normal,
    /// Inside a quoted string.
    InString,
    /// Inside a string, right after a backslash.
    StringEscape,
    /// Inside a `//` comment.
    LineComment,
    /// Inside a `/*` comment.
    BlockComment,
    /// Inside a `/*` comment, right after a `*`.
    BlockCommentStar,
}

/// ASCII whitespace: space, tab, newline, form feed, carriage return.
pub open spec fn is_space(b: u8) -> bool {
    b == 32 || b == 9 || b == 10 || b == 12 || b == 13
}

/// A byte that can sit inside an alphanumeric token: ASCII letters and
/// digits, and every non-ASCII byte, since those only occur inside
/// multi-byte characters.
///
/// This is a deliberate byte-level over-approximation of the
/// alphanumeric rule: a non-ASCII character counts as token-like
/// whether or not it is alphanumeric, so a space between two non-ASCII
/// punctuation characters survives where a character-level rule would
/// drop it.  Keeping a space never changes what the text means; the
/// transducer then needs no UTF-8 decoding.
pub open spec fn is_token_byte(b: u8) -> bool {
    (48 <= b <= 57) || (65 <= b <= 90) || (97 <= b <= 122) || b >= 128
}

/// Whether one space must survive a dropped whitespace run: removing it
/// would fuse two tokens, or it abuts a backslash.
pub open spec fn keep_space(prev: Option<u8>, next: Option<u8>) -> bool {
    match (prev, next) {
        (Some(p), Some(n)) => (is_token_byte(p) && is_token_byte(n)) || p == 92 || n == 92,
        _ => false,
    }
}

/// What the transducer emits from state `st`, with `prev` the last byte
/// it has emitted, on the remaining input `s`.
pub open spec fn mstep(st: MinState, prev: Option<u8>, s: Seq<u8>) -> Seq<u8>
    decreases s.len(),
{
    if s.len() == 0 {
        Seq::empty()
    } else {
        let c = s[0];
        let nxt: Option<u8> = if s.len() > 1 {
            Some(s[1])
        } else {
            None
        };
        match st {
            MinState::Normal => {
                if c == 34 {
                    seq![c] + mstep(MinState::InString, Some(34u8), s.skip(1))
                } else if c == 47 && nxt == Some(47u8) {
                    mstep(MinState::LineComment, prev, s.skip(2))
                } else if c == 47 && nxt == Some(42u8) {
                    mstep(MinState::BlockComment, prev, s.skip(2))
                } else if is_space(c) {
                    if keep_space(prev, nxt) {
                        seq![32u8] + mstep(MinState::Normal, Some(32u8), s.skip(1))
                    } else {
                        mstep(MinState::Normal, prev, s.skip(1))
                    }
                } else {
                    seq![c] + mstep(MinState::Normal, Some(c), s.skip(1))
                }
            },
            MinState::InString => {
                if c == 92 {
                    seq![c] + mstep(MinState::StringEscape, Some(92u8), s.skip(1))
                } else if c == 34 {
                    seq![c] + mstep(MinState::Normal, Some(34u8), s.skip(1))
                } else {
                    seq![c] + mstep(MinState::InString, Some(c), s.skip(1))
                }
            },
            MinState::StringEscape => seq![c] + mstep(MinState::InString, Some(c), s.skip(1)),
            MinState::LineComment => {
                if c == 10 {
                    mstep(MinState::Normal, prev, s.skip(1))
                } else {
                    mstep(MinState::LineComment, prev, s.skip(1))
                }
            },
            MinState::BlockComment => {
                if c == 42 {
                    mstep(MinState::BlockCommentStar, prev, s.skip(1))
                } else {
                    mstep(MinState::BlockComment, prev, s.skip(1))
                }
            },
            MinState::BlockCommentStar => {
                if c == 47 {
                    mstep(MinState::Normal, prev, s.skip(1))
                } else if c == 42 {
                    mstep(MinState::BlockCommentStar, prev, s.skip(1))
                } else {
                    mstep(MinState::BlockComment, prev, s.skip(1))
                }
            },
        }
    }
}

/// The minified form of a metadata text.
pub open spec fn minify(s: Seq<u8>) -> Seq<u8> {
    mstep(MinState::Normal, None, s)
}

/// Minify a whole buffer: the exec transducer, proved to agree with
/// `minify`.
pub fn minify_bytes(input: &[u8]) -> (r: Vec<u8>)
    ensures
        r@ == minify(input@),
{
    let mut out: Vec<u8> = Vec::new();
    let mut st = MinState::Normal;
    let mut prev: Option<u8> = None;
    let mut i: usize = 0;
    assert(input@.skip(0) =~= input@);
    while i < input.len()
        invariant
            0 <= i <= input.len(),
            minify(input@) == out@ + mstep(st, prev, input@.skip(i as int)),
        decreases input.len() - i,
    {
        let ghost rest = input@.skip(i as int);
        proof {
            assert(rest[0] == input@[i as int]);
            if rest.len() > 1 {
                assert(rest[1] == input@[i as int + 1]);
            }
            assert(rest.skip(1) =~= input@.skip(i as int + 1));
            if rest.len() >= 2 {
                assert(rest.skip(2) =~= input@.skip(i as int + 2));
            }
        }
        let c = input[i];
        let nxt: Option<u8> = if i + 1 < input.len() {
            Some(input[i + 1])
        } else {
            None
        };
        match st {
            MinState::Normal => {
                if c == 34 {
                    out.push(c);
                    st = MinState::InString;
                    prev = Some(34);
                    i = i + 1;
                } else if c == 47 && (i + 1 < input.len() && input[i + 1] == 47) {
                    st = MinState::LineComment;
                    i = i + 2;
                } else if c == 47 && (i + 1 < input.len() && input[i + 1] == 42) {
                    st = MinState::BlockComment;
                    i = i + 2;
                } else if c == 32 || c == 9 || c == 10 || c == 12 || c == 13 {
                    let keep = match (prev, nxt) {
                        (Some(p), Some(n)) => {
                            let p_tok = (48 <= p && p <= 57) || (65 <= p && p <= 90) || (97 <= p
                                && p <= 122) || p >= 128;
                            let n_tok = (48 <= n && n <= 57) || (65 <= n && n <= 90) || (97 <= n
                                && n <= 122) || n >= 128;
                            (p_tok && n_tok) || p == 92 || n == 92
                        },
                        _ => false,
                    };
                    if keep {
                        out.push(32);
                        prev = Some(32);
                    }
                    i = i + 1;
                } else {
                    out.push(c);
                    prev = Some(c);
                    i = i + 1;
                }
            },
            MinState::InString => {
                out.push(c);
                if c == 92 {
                    st = MinState::StringEscape;
                    prev = Some(92);
                } else if c == 34 {
                    st = MinState::Normal;
                    prev = Some(34);
                } else {
                    prev = Some(c);
                }
                i = i + 1;
            },
            MinState::StringEscape => {
                out.push(c);
                st = MinState::InString;
                prev = Some(c);
                i = i + 1;
            },
            MinState::LineComment => {
                if c == 10 {
                    st = MinState::Normal;
                }
                i = i + 1;
            },
            MinState::BlockComment => {
                if c == 42 {
                    st = MinState::BlockCommentStar;
                }
                i = i + 1;
            },
            MinState::BlockCommentStar => {
                if c == 47 {
                    st = MinState::Normal;
                } else if c == 42 {
                } else {
                    st = MinState::BlockComment;
                }
                i = i + 1;
            },
        }
    }
    proof {
        assert(input@.skip(input@.len() as int) =~= Seq::<u8>::empty());
    }
    out
}

/// A minifying view of a metadata source buffer.
pub struct RonMinifier {
    input: Vec<u8>,
}

impl RonMinifier {
    /// The wrapped source bytes.
    pub closed spec fn view(&self) -> Seq<u8> {
        self.input@
    }

    pub fn new(input: Vec<u8>) -> (r: Self)
        ensures
            r@ == input@,
    {
        RonMinifier { input }
    }

    /// The minified form of the wrapped buffer.
    pub fn minify(&self) -> (r: Vec<u8>)
        ensures
            r@ == minify(self@),
    {
        minify_bytes(self.input.as_slice())
    }
}

// ---------------------------------------------------------------------------
// Laws of the minifier
// ---------------------------------------------------------------------------
/// Text with no whitespace byte and no comment opener anywhere.
pub open spec fn has_no_space_or_comment(s: Seq<u8>) -> bool {
    &&& forall|k: int| 0 <= k < s.len() ==> !is_space(#[trigger] s[k])
    &&& forall|k: int|
        0 <= k < s.len() - 1 ==> !(#[trigger] s[k] == 47 && (s[k + 1] == 47 || s[k + 1] == 42))
}

proof fn lemma_mstep_plain_identity(st: MinState, prev: Option<u8>, s: Seq<u8>)
    requires
        has_no_space_or_comment(s),
        st == MinState::Normal || st == MinState::InString || st == MinState::StringEscape,
    ensures
        mstep(st, prev, s) == s,
    decreases s.len(),
{
    if s.len() == 0 {
        assert(mstep(st, prev, s) =~= s);
    } else {
        let c = s[0];
        let t = s.skip(1);
        assert(forall|k: int| 0 <= k < t.len() ==> t[k] == s[k + 1]);
        assert(!is_space(c));
        if s.len() > 1 {
            assert(!(s[0] == 47 && (s[1] == 47 || s[1] == 42)));
        }
        match st {
            MinState::Normal => {
                if c == 34 {
                    lemma_mstep_plain_identity(MinState::InString, Some(34u8), t);
                } else {
                    lemma_mstep_plain_identity(MinState::Normal, Some(c), t);
                }
            },
            MinState::InString => {
                if c == 92 {
                    lemma_mstep_plain_identity(MinState::StringEscape, Some(92u8), t);
                } else if c == 34 {
                    lemma_mstep_plain_identity(MinState::Normal, Some(34u8), t);
                } else {
                    lemma_mstep_plain_identity(MinState::InString, Some(c), t);
                }
            },
            MinState::StringEscape => {
                lemma_mstep_plain_identity(MinState::InString, Some(c), t);
            },
            _ => {},
        }
        assert(seq![c] + t =~= s);
    }
}

/// Minifying text that holds no whitespace and no comment is the
/// identity transform.
pub proof fn lemma_minify_identity(s: Seq<u8>)
    requires
        has_no_space_or_comment(s),
    ensures
        minify(s) == s,
{
    lemma_mstep_plain_identity(MinState::Normal, None, s);
}

/// Input whose slashes and backslashes all lie inside strings, traced
/// from the given state: outside a string, a slash could fuse with a
/// neighbour into a comment opener and a backslash could force a space
/// that a second pass near the end of input drops again.
pub open spec fn slashes_only_in_strings(st: MinState, s: Seq<u8>) -> bool
    decreases s.len(),
{
    if s.len() == 0 {
        true
    } else {
        match st {
            MinState::Normal => s[0] != 47 && s[0] != 92 && (if s[0] == 34 {
                slashes_only_in_strings(MinState::InString, s.skip(1))
            } else {
                slashes_only_in_strings(MinState::Normal, s.skip(1))
            }),
            MinState::InString => {
                if s[0] == 92 {
                    slashes_only_in_strings(MinState::StringEscape, s.skip(1))
                } else if s[0] == 34 {
                    slashes_only_in_strings(MinState::Normal, s.skip(1))
                } else {
                    slashes_only_in_strings(MinState::InString, s.skip(1))
                }
            },
            MinState::StringEscape => slashes_only_in_strings(MinState::InString, s.skip(1)),
            _ => false,
        }
    }
}

proof fn lemma_mstep_idempotent(st: MinState, prev: Option<u8>, s: Seq<u8>)
    requires
        slashes_only_in_strings(st, s),
        st == MinState::Normal || st == MinState::InString || st == MinState::StringEscape,
        st == MinState::Normal ==> (prev matches Some(p) ==> p != 47 && p != 92),
    ensures
        mstep(st, prev, mstep(st, prev, s)) == mstep(st, prev, s),
    decreases s.len(),
{
    if s.len() == 0 {
    } else {
        let c = s[0];
        let t = s.skip(1);
        let o = mstep(st, prev, s);
        match st {
            MinState::Normal => {
                assert(c != 47 && c != 92);
                if c == 34 {
                    let o2 = mstep(MinState::InString, Some(34u8), t);
                    lemma_mstep_idempotent(MinState::InString, Some(34u8), t);
                    assert(o == seq![c] + o2);
                    assert((seq![c] + o2).skip(1) =~= o2);
                    assert(mstep(st, prev, o) == seq![c] + mstep(
                        MinState::InString,
                        Some(34u8),
                        o2,
                    ));
                } else if is_space(c) {
                    let nxt: Option<u8> = if s.len() > 1 {
                        Some(s[1])
                    } else {
                        None
                    };
                    if keep_space(prev, nxt) {
                        let p = prev->0;
                        let n = nxt->0;
                        assert(n == s[1]);
                        assert(t[0] == n);
                        assert(n != 92 && n != 47) by {
                            assert(slashes_only_in_strings(MinState::Normal, t));
                        }
                        assert(p != 92);
                        assert(is_token_byte(p) && is_token_byte(n));
                        let o2 = mstep(MinState::Normal, Some(32u8), t);
                        lemma_mstep_idempotent(MinState::Normal, Some(32u8), t);
                        assert(o == seq![32u8] + o2);
                        // the continuation starts with the token byte `n`
                        assert(!is_space(n) && n != 34);
                        let o3 = mstep(MinState::Normal, Some(n), t.skip(1));
                        assert(o2 == seq![n] + o3);
                        // reprocessing keeps the surviving space
                        assert((seq![32u8] + o2)[0] == 32 && (seq![32u8] + o2).len() > 1);
                        assert((seq![32u8] + o2)[1] == n);
                        assert(is_space(32u8) && keep_space(prev, Some(n)));
                        assert((seq![32u8] + o2).skip(1) =~= o2);
                        assert(mstep(st, prev, o) == seq![32u8] + mstep(
                            MinState::Normal,
                            Some(32u8),
                            o2,
                        ));
                    } else {
                        lemma_mstep_idempotent(MinState::Normal, prev, t);
                        assert(o == mstep(MinState::Normal, prev, t));
                    }
                } else {
                    let o2 = mstep(MinState::Normal, Some(c), t);
                    lemma_mstep_idempotent(MinState::Normal, Some(c), t);
                    assert(o == seq![c] + o2);
                    assert((seq![c] + o2).skip(1) =~= o2);
                    assert(mstep(st, prev, o) == seq![c] + mstep(MinState::Normal, Some(c), o2));
                }
            },
            MinState::InString => {
                if c == 92 {
                    let o2 = mstep(MinState::StringEscape, Some(92u8), t);
                    lemma_mstep_idempotent(MinState::StringEscape, Some(92u8), t);
                    assert(o == seq![c] + o2);
                    assert((seq![c] + o2).skip(1) =~= o2);
                    assert(mstep(st, prev, o) == seq![c] + mstep(
                        MinState::StringEscape,
                        Some(92u8),
                        o2,
                    ));
                } else if c == 34 {
                    let o2 = mstep(MinState::Normal, Some(34u8), t);
                    lemma_mstep_idempotent(MinState::Normal, Some(34u8), t);
                    assert(o == seq![c] + o2);
                    assert((seq![c] + o2).skip(1) =~= o2);
                    assert(mstep(st, prev, o) == seq![c] + mstep(MinState::Normal, Some(34u8), o2));
                } else {
                    let o2 = mstep(MinState::InString, Some(c), t);
                    lemma_mstep_idempotent(MinState::InString, Some(c), t);
                    assert(o == seq![c] + o2);
                    assert((seq![c] + o2).skip(1) =~= o2);
                    assert(mstep(st, prev, o) == seq![c] + mstep(MinState::InString, Some(c), o2));
                }
            },
            MinState::StringEscape => {
                let o2 = mstep(MinState::InString, Some(c), t);
                lemma_mstep_idempotent(MinState::InString, Some(c), t);
                assert(o == seq![c] + o2);
                assert((seq![c] + o2).skip(1) =~= o2);
                assert(mstep(st, prev, o) == seq![c] + mstep(MinState::InString, Some(c), o2));
            },
            _ => {},
        }
    }
}

/// Re-minifying already-minified text is a no-op, for text whose
/// slashes and backslashes all lie inside strings.  (A whitespace run
/// that separates a bare slash from a comment opener, or one that
/// follows a bare backslash at the end of the input, can minify to text
/// that a second pass shortens again.)
pub proof fn lemma_minify_idempotent(s: Seq<u8>)
    requires
        slashes_only_in_strings(MinState::Normal, s),
    ensures
        minify(minify(s)) == minify(s),
{
    lemma_mstep_idempotent(MinState::Normal, None, s);
}

} // verus!
