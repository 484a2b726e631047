//! Character-level tokenization for the training corpus: byte-range
//! characters map to themselves shifted past four reserved tokens, and
//! anything wider falls to the unknown token.

use vstd::prelude::*;
use vstd::utf8::{encode_utf8, decode_utf8, valid_utf8};
use crate::codec::{push_char, read_byte_run, string_from_utf8};

verus! {

/// One corpus example.
#[derive(Debug)]
pub struct Example {
    pub input: String,
    pub output: String,
}

/// A character-level tokenizer with four reserved tokens: padding,
/// beginning, end, unknown.
pub struct CharTokenizer {
    pub pad_token: u32,
    pub bos_token: u32,
    pub eos_token: u32,
    pub unk_token: u32,
}

/// The token of one character: its code shifted past the reserved
/// range when it fits a byte, the unknown token otherwise.
pub open spec fn token_of_char(c: char, unk: u32) -> u32 {
    if (c as u32) < 256 {
        (c as u32 + 4) as u32
    } else {
        unk
    }
}

/// The full encoding: beginning token, one token per character, end
/// token.
pub open spec fn encode_tokens(s: Seq<char>, t: CharTokenizer) -> Seq<u32> {
    seq![t.bos_token] + Seq::new(s.len(), |i: int| token_of_char(s[i], t.unk_token))
        + seq![t.eos_token]
}

/// The character codes a token list decodes to: tokens in the shifted
/// byte range keep their code, everything else is dropped.
pub open spec fn kept_codes(toks: Seq<u32>) -> Seq<u32>
    decreases toks,
{
    if toks.len() == 0 {
        Seq::empty()
    } else {
        kept_codes(toks.drop_last()) + (if 4 <= toks.last() && toks.last() < 260 {
            seq![(toks.last() - 4) as u32]
        } else {
            Seq::empty()
        })
    }
}

/// Relies on `char::from_u32`: it succeeds exactly on Unicode scalar
/// values and yields the character with that code.
#[verifier::external_body]
fn char_from_u32(u: u32) -> (r: Option<char>)
    ensures
        r matches Some(c) ==> c as u32 == u,
        r is Some <==> (u < 0xD800 || (0xE000 <= u && u < 0x110000)),
{
    char::from_u32(u)
}

impl CharTokenizer {
    pub fn new() -> (r: Self)
        ensures
            r.pad_token == 0,
            r.bos_token == 1,
            r.eos_token == 2,
            r.unk_token == 3,
    {
        CharTokenizer { pad_token: 0, bos_token: 1, eos_token: 2, unk_token: 3 }
    }

    /// Encode a text: beginning token, one token per character, end
    /// token.
    #[verifier::loop_isolation(false)]
    pub fn encode(&self, text: &str) -> (r: Vec<u32>)
        ensures
            r@ == encode_tokens(text@, *self),
    {
        let mut tokens: Vec<u32> = Vec::new();
        tokens.push(self.bos_token);
        let n: usize = text.unicode_len();
        let mut i: usize = 0;
        while i < n
            invariant
                n == text@.len(),
                i <= n,
                tokens@.len() == i + 1,
                tokens@[0] == self.bos_token,
                forall|k: int|
                    0 <= k < i ==> #[trigger] tokens@[k + 1] == token_of_char(
                        text@[k],
                        self.unk_token,
                    ),
            decreases n - i,
        {
            let c: char = text.get_char(i);
            let code: u32 = c as u32;
            if code < 256 {
                tokens.push(code + 4);
            } else {
                tokens.push(self.unk_token);
            }
            i = i + 1;
        }
        tokens.push(self.eos_token);
        proof {
            assert forall|j: int| 0 <= j < tokens@.len() implies tokens@[j] == encode_tokens(
                text@,
                *self,
            )[j] by {
                if 1 <= j <= text@.len() {
                    assert(tokens@[(j - 1) + 1] == token_of_char(text@[j - 1], self.unk_token));
                }
            }
            assert(tokens@ =~= encode_tokens(text@, *self));
        }
        tokens
    }

    /// Decode tokens back to text: shifted byte-range tokens keep their
    /// character, reserved and out-of-range tokens are dropped.
    #[verifier::loop_isolation(false)]
    pub fn decode(&self, tokens: &[u32]) -> (r: String)
        ensures
            r@.len() == kept_codes(tokens@).len(),
            forall|i: int|
                0 <= i < r@.len() ==> (#[trigger] r@[i]) as u32 == kept_codes(tokens@)[i],
    {
        let mut out = String::new();
        let mut i: usize = 0;
        while i < tokens.len()
            invariant
                i <= tokens@.len(),
                out@.len() == kept_codes(tokens@.take(i as int)).len(),
                forall|k: int|
                    0 <= k < out@.len() ==> (#[trigger] out@[k]) as u32 == kept_codes(
                        tokens@.take(i as int),
                    )[k],
            decreases tokens@.len() - i,
        {
            let t: u32 = tokens[i];
            proof {
                assert(tokens@.take(i as int + 1).drop_last() =~= tokens@.take(i as int));
                assert(tokens@.take(i as int + 1).last() == tokens@[i as int]);
            }
            if 4 <= t && t < 260 {
                match char_from_u32(t - 4) {
                    Some(c) => {
                        push_char(&mut out, c);
                    },
                    None => {
                        proof {
                            assert(false);
                        }
                    },
                }
            }
            i = i + 1;
        }
        proof {
            assert(tokens@.take(tokens@.len() as int) =~= tokens@);
        }
        out
    }

    /// The vocabulary size: 256 byte characters plus 4 reserved tokens.
    pub fn vocab_size(&self) -> (r: u32)
        ensures
            r == 260,
    {
        260
    }
}

/// The least position at or after `from` where the needle occurs, or
/// nothing.
pub open spec fn find_sub_from(h: Seq<u8>, n: Seq<u8>, from: int) -> Option<int>
    decreases h.len() + 1 - from,
{
    if from < 0 || from + n.len() > h.len() {
        None
    } else if h.subrange(from, from + n.len() as int) == n {
        Some(from)
    } else {
        find_sub_from(h, n, from + 1)
    }
}

/// What a corpus line parses to: the text between the first pair of
/// quotes after the input marker, and likewise after the output marker,
/// both searched from the start of the line.
pub open spec fn spec_parse_jsonl(b: Seq<u8>) -> Option<(Seq<char>, Seq<char>)> {
    let in_pat = encode_utf8("\"input\":"@);
    let out_pat = encode_utf8("\"output\":"@);
    let quote = encode_utf8("\""@);
    match find_sub_from(b, in_pat, 0) {
        None => None,
        Some(i0) => match find_sub_from(b, quote, i0 + in_pat.len()) {
            None => None,
            Some(q1) => match find_sub_from(b, quote, q1 + quote.len()) {
                None => None,
                Some(q2) => {
                    let ib = b.subrange(q1 + quote.len(), q2);
                    if !valid_utf8(ib) {
                        None
                    } else {
                        match find_sub_from(b, out_pat, 0) {
                            None => None,
                            Some(o0) => match find_sub_from(b, quote, o0 + out_pat.len()) {
                                None => None,
                                Some(p1) => match find_sub_from(b, quote, p1 + quote.len()) {
                                    None => None,
                                    Some(p2) => {
                                        let ob = b.subrange(p1 + quote.len(), p2);
                                        if !valid_utf8(ob) {
                                            None
                                        } else {
                                            Some((decode_utf8(ib), decode_utf8(ob)))
                                        }
                                    },
                                },
                            },
                        }
                    }
                },
            },
        },
    }
}

/// Whether the needle occurs exactly at this position.
fn sub_matches_at(h: &[u8], needle: &[u8], at: usize) -> (r: bool)
    requires
        at + needle@.len() <= h@.len(),
    ensures
        r == (h@.subrange(at as int, at as int + needle@.len() as int) == needle@),
{
    let hl: usize = h.len();
    let nl: usize = needle.len();
    let mut j: usize = 0;
    while j < needle.len()
        invariant
            at + needle@.len() <= h@.len(),
            j <= needle@.len(),
            hl == h@.len(),
            nl == needle@.len(),
            forall|k: int| 0 <= k < j ==> h@[at + k] == needle@[k],
        decreases needle@.len() - j,
    {
        if h[at + j] != needle[j] {
            proof {
                assert(h@.subrange(at as int, at as int + needle@.len() as int)[j as int]
                    != needle@[j as int]);
            }
            return false;
        }
        j = j + 1;
    }
    proof {
        assert(h@.subrange(at as int, at as int + needle@.len() as int) =~= needle@);
    }
    true
}

/// Find the needle's first occurrence at or after `from`.
#[verifier::loop_isolation(false)]
fn find_sub(h: &[u8], needle: &[u8], from: usize) -> (r: Option<usize>)
    ensures
        (match r {
            Some(i) => find_sub_from(h@, needle@, from as int) == Some(i as int) && from <= i && i
                + needle@.len() <= h@.len(),
            None => find_sub_from(h@, needle@, from as int) is None,
        }),
{
    if from > h.len() || h.len() - from < needle.len() {
        proof {
            assert(find_sub_from(h@, needle@, from as int) is None);
        }
        return None;
    }
    let last: usize = h.len() - needle.len();
    let mut i: usize = from;
    loop
        invariant
            from <= i <= last,
            last + needle@.len() == h@.len(),
            find_sub_from(h@, needle@, from as int) == find_sub_from(h@, needle@, i as int),
        decreases last - i,
    {
        if sub_matches_at(h, needle, i) {
            return Some(i);
        }
        if i == last {
            proof {
                assert(find_sub_from(h@, needle@, i as int + 1) is None);
            }
            return None;
        }
        i = i + 1;
    }
}

/// Pull one example out of a corpus line: the quoted text after the
/// input marker and the quoted text after the output marker.  A line
/// missing either yields nothing.
pub fn parse_jsonl_line(line: &str) -> (r: Option<Example>)
    ensures
        (match r {
            Some(ex) => spec_parse_jsonl(encode_utf8(line@)) == Some((ex.input@, ex.output@)),
            None => spec_parse_jsonl(encode_utf8(line@)) is None,
        }),
{
    let lb = line.as_bytes();
    let lbl: usize = lb.len();
    proof {
        assert(lbl == lb@.len());
    }
    let in_pat = "\"input\":".as_bytes();
    let out_pat = "\"output\":".as_bytes();
    let quote = "\"".as_bytes();
    let ql: usize = quote.len();
    let i0 = match find_sub(lb, in_pat, 0) {
        Some(i) => i,
        None => {
            return None;
        },
    };
    let q1 = match find_sub(lb, quote, i0 + in_pat.len()) {
        Some(i) => i,
        None => {
            return None;
        },
    };
    let q2 = match find_sub(lb, quote, q1 + ql) {
        Some(i) => i,
        None => {
            return None;
        },
    };
    let (ibytes, _) = match read_byte_run(lb, q1 + ql, q2 - (q1 + ql)) {
        Ok(t) => t,
        Err(_) => {
            proof {
                assert(false);
            }
            return None;
        },
    };
    let input = match string_from_utf8(ibytes) {
        Some(s) => s,
        None => {
            return None;
        },
    };
    let o0 = match find_sub(lb, out_pat, 0) {
        Some(i) => i,
        None => {
            return None;
        },
    };
    let p1 = match find_sub(lb, quote, o0 + out_pat.len()) {
        Some(i) => i,
        None => {
            return None;
        },
    };
    let p2 = match find_sub(lb, quote, p1 + ql) {
        Some(i) => i,
        None => {
            return None;
        },
    };
    let (obytes, _) = match read_byte_run(lb, p1 + ql, p2 - (p1 + ql)) {
        Ok(t) => t,
        Err(_) => {
            proof {
                assert(false);
            }
            return None;
        },
    };
    let output = match string_from_utf8(obytes) {
        Some(s) => s,
        None => {
            return None;
        },
    };
    Some(Example { input, output })
}

} // verus!
