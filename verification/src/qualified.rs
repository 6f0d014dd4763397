//! Fully-qualified tool names.
//!
//! A fully-qualified name is `server`, then a fixed reserved delimiter, then
//! `tool`. Decoding splits on the first occurrence of the delimiter and yields
//! nothing when the delimiter is absent or either half is empty.
//!
//! The delimiter is drawn from the same character set as valid names, so a
//! valid server name may itself contain the delimiter; [`prefix_safe`] names
//! the exact condition under which decoding undoes encoding.

use vstd::prelude::*;

use crate::names::is_valid_name;

verus! {

/// The reserved string that separates the server name from the tool name.
pub open spec fn delimiter() -> Seq<char> {
    "__OAI_CODEX_MCP__"@
}

/// The pattern `p` occurs in `s` starting at index `i`.
pub open spec fn occurs_at(s: Seq<char>, p: Seq<char>, i: int) -> bool {
    0 <= i && i + p.len() <= s.len() && s.subrange(i, i + p.len()) == p
}

/// Index of the first occurrence of the delimiter in `fq` at or after `i`.
pub open spec fn first_delim_from(fq: Seq<char>, i: int) -> Option<int>
    decreases fq.len() - i,
{
    if i >= fq.len() || i + delimiter().len() > fq.len() {
        None
    } else if occurs_at(fq, delimiter(), i) {
        Some(i)
    } else {
        first_delim_from(fq, i + 1)
    }
}

/// A fully-qualified name: the server, the delimiter, the tool.
pub open spec fn encode_spec(server: Seq<char>, tool: Seq<char>) -> Seq<char> {
    server + delimiter() + tool
}

/// The two halves around the first occurrence of the delimiter, or nothing
/// when the delimiter is absent or either half would be empty.
pub open spec fn decode_spec(fq: Seq<char>) -> Option<(Seq<char>, Seq<char>)> {
    match first_delim_from(fq, 0) {
        None => None,
        Some(i) => if i == 0 || i + delimiter().len() == fq.len() {
            None
        } else {
            Some((fq.subrange(0, i), fq.subrange(i + delimiter().len(), fq.len() as int)))
        },
    }
}

/// The delimiter is seventeen characters long.
pub proof fn lemma_delimiter_len()
    ensures
        delimiter().len() == 17,
{
    reveal_strlit("__OAI_CODEX_MCP__");
}

proof fn lemma_first_from_found(fq: Seq<char>, k: int, i: int)
    requires
        0 <= k <= i,
        occurs_at(fq, delimiter(), i),
        forall|j: int| k <= j < i ==> !occurs_at(fq, delimiter(), j),
    ensures
        first_delim_from(fq, k) == Some(i),
    decreases i - k,
{
    lemma_delimiter_len();
    if k < i {
        lemma_first_from_found(fq, k + 1, i);
    }
}

proof fn lemma_first_from_none(fq: Seq<char>, k: int)
    requires
        forall|j: int| k <= j ==> !occurs_at(fq, delimiter(), j),
    ensures
        first_delim_from(fq, k) is None,
    decreases fq.len() - k,
{
    if k < fq.len() && k + delimiter().len() <= fq.len() {
        lemma_first_from_none(fq, k + 1);
    }
}

/// Builds the fully-qualified name for a (server, tool) pair.
pub fn fully_qualified_tool_name(server: &str, tool: &str) -> (r: String)
    ensures
        r@ == encode_spec(server@, tool@),
{
    let head: String = server.to_owned();
    let head: String = head.concat("__OAI_CODEX_MCP__");
    head.concat(tool)
}

/// True when `s` and `pat` agree on `pat`'s length starting at `i` in `s`.
pub(crate) fn match_at(s: &str, s_len: usize, i: usize, pat: &str, pat_len: usize) -> (r: bool)
    requires
        s_len == s@.len(),
        pat_len == pat@.len(),
        i + pat_len <= s_len,
    ensures
        r == occurs_at(s@, pat@, i as int),
{
    let mut j: usize = 0;
    while j < pat_len
        invariant
            s_len == s@.len(),
            pat_len == pat@.len(),
            i + pat_len <= s_len,
            j <= pat_len,
            forall|m: int| 0 <= m < j ==> s@[i + m] == pat@[m],
        decreases pat_len - j,
    {
        if s.get_char(i + j) != pat.get_char(j) {
            assert(s@.subrange(i as int, i + pat_len) != pat@) by {
                assert(s@.subrange(i as int, i + pat_len)[j as int] == s@[i + j]);
            }
            return false;
        }
        j = j + 1;
    }
    assert(s@.subrange(i as int, i + pat_len) =~= pat@);
    true
}

/// Splits a fully-qualified name back into its (server, tool) pair.
pub fn try_parse_fully_qualified_tool_name(fq_name: &str) -> (r: Option<(String, String)>)
    ensures
        r.deep_view() == decode_spec(fq_name@),
{
    let delim: &str = "__OAI_CODEX_MCP__";
    proof {
        reveal_strlit("__OAI_CODEX_MCP__");
    }
    let dlen: usize = delim.unicode_len();
    let n: usize = fq_name.unicode_len();
    if n < dlen {
        proof {
            lemma_first_from_none(fq_name@, 0);
        }
        return None;
    }
    let mut i: usize = 0;
    while i <= n - dlen
        invariant
            dlen == delimiter().len(),
            n == fq_name@.len(),
            delim@ == delimiter(),
            0 < dlen <= n,
            i <= n - dlen + 1,
            forall|j: int| 0 <= j < i ==> !occurs_at(fq_name@, delimiter(), j),
        decreases n - i,
    {
        if match_at(fq_name, n, i, delim, dlen) {
            proof {
                lemma_first_from_found(fq_name@, 0, i as int);
            }
            if i == 0 || i + dlen == n {
                return None;
            }
            let server: &str = fq_name.substring_char(0, i);
            let tool: &str = fq_name.substring_char(i + dlen, n);
            return Some((server.to_owned(), tool.to_owned()));
        }
        i = i + 1;
    }
    proof {
        assert(forall|j: int| j >= i ==> !occurs_at(fq_name@, delimiter(), j));
        lemma_first_from_none(fq_name@, 0);
    }
    None
}

/// No occurrence of the delimiter starts strictly inside `s` when the
/// delimiter itself follows `s`. Encoding with such a server name is the
/// exact condition under which decoding recovers the pair.
pub open spec fn prefix_safe(s: Seq<char>) -> bool {
    forall|i: int| 0 <= i < s.len() ==> !occurs_at(s + delimiter(), delimiter(), i)
}

/// Decoding undoes encoding: for valid names whose server half is
/// [`prefix_safe`], the first delimiter occurrence in the encoding is the one
/// the encoder wrote, so both halves come back exactly.
pub proof fn lemma_decode_encode(s: Seq<char>, t: Seq<char>)
    requires
        is_valid_name(s),
        is_valid_name(t),
        prefix_safe(s),
    ensures
        decode_spec(encode_spec(s, t)) == Some((s, t)),
{
    let fq = encode_spec(s, t);
    let dl = delimiter().len() as int;
    let sl = s.len() as int;
    assert(occurs_at(fq, delimiter(), sl)) by {
        assert(fq.subrange(sl, sl + dl) =~= delimiter());
    }
    assert forall|j: int| 0 <= j < sl implies !occurs_at(fq, delimiter(), j) by {
        if occurs_at(fq, delimiter(), j) {
            assert(fq.subrange(j, j + dl) =~= (s + delimiter()).subrange(j, j + dl));
            assert(occurs_at(s + delimiter(), delimiter(), j));
        }
    }
    lemma_first_from_found(fq, 0, sl);
    assert(delimiter().len() > 0) by {
        reveal_strlit("__OAI_CODEX_MCP__");
    }
    assert(fq.subrange(0, sl) =~= s);
    assert(fq.subrange(sl + dl, fq.len() as int) =~= t);
}

/// Decoding yields nothing when the delimiter never occurs in the string,
/// when it occurs at the very start (the server half would be empty), and
/// when its first occurrence ends the string (the tool half would be empty).
pub proof fn lemma_decode_rejects(fq: Seq<char>)
    ensures
        (forall|i: int| !occurs_at(fq, delimiter(), i)) ==> decode_spec(fq) is None,
        occurs_at(fq, delimiter(), 0) ==> decode_spec(fq) is None,
        first_delim_from(fq, 0) == Some(fq.len() - delimiter().len()) ==> decode_spec(fq) is None,
{
    if forall|i: int| !occurs_at(fq, delimiter(), i) {
        lemma_first_from_none(fq, 0);
    }
    if occurs_at(fq, delimiter(), 0) {
        lemma_first_from_found(fq, 0, 0);
    }
}

/// Distinct server names give distinct fully-qualified names for the same
/// tool name: a tool advertised by two different servers never collides.
pub proof fn lemma_encode_server_injective(s1: Seq<char>, s2: Seq<char>, t: Seq<char>)
    requires
        s1 != s2,
    ensures
        encode_spec(s1, t) != encode_spec(s2, t),
{
    if s1.len() == s2.len() {
        if encode_spec(s1, t) == encode_spec(s2, t) {
            assert forall|i: int| 0 <= i < s1.len() implies s1[i] == s2[i] by {
                assert(encode_spec(s1, t)[i] == s1[i]);
                assert(encode_spec(s2, t)[i] == s2[i]);
            }
            assert(s1 =~= s2);
        }
    } else {
        assert(encode_spec(s1, t).len() != encode_spec(s2, t).len());
    }
}

} // verus!
