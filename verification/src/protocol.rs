//! The judge's text protocol: lines split into whitespace-separated tokens,
//! numbers read as Rust's integer parsing reads them, and the lines that
//! describe the graph, the machine, the received packets and a packet's works.
use vstd::prelude::*;
use crate::types::{Input, Packet, PacketPath, Node, Graph, MAX_COST, MAX_CORES, MAX_NODE_BATCH, MAX_PATH_LEN, N_PACKET_TYPE, N_NODE, N_SPECIAL, SPECIAL_NODE_ID, node_wf, path_wf};
use crate::run::graph_fits;
use crate::greedy::MAX_TASK_PACKETS;
use crate::fallback::{fallback_batch, fallback_fits, FALLBACK_BATCH_SIZES};

verus! {

/// ASCII whitespace: space, tab, line feed, vertical tab, form feed, carriage return.
pub open spec fn is_space(b: u8) -> bool {
    b == 32 || (9 <= b && b <= 13)
}

/// The maximal runs of non-whitespace bytes of `s`, in order.
pub open spec fn tokens(s: Seq<u8>) -> Seq<Seq<u8>>
    decreases s.len(),
{
    if s.len() == 0 {
        seq![]
    } else {
        let before = tokens(s.drop_last());
        let b = s.last();
        if is_space(b) {
            before
        } else if s.len() >= 2 && !is_space(s[s.len() - 2]) {
            before.update(before.len() - 1, before.last().push(b))
        } else {
            before.push(seq![b])
        }
    }
}

exec fn is_space_byte(b: u8) -> (r: bool)
    ensures
        r == is_space(b),
{
    b == 32 || (9 <= b && b <= 13)
}

/// The tokens of `line`.
pub fn split_tokens(line: &[u8]) -> (r: Vec<Vec<u8>>)
    ensures
        r@.len() == tokens(line@).len(),
        forall|i: int| 0 <= i < r@.len() ==> (#[trigger] r@[i])@ == tokens(line@)[i],
{
    let mut out: Vec<Vec<u8>> = Vec::new();
    let mut cur: Vec<u8> = Vec::new();
    let mut k: usize = 0;
    while k < line.len()
        invariant
            k <= line@.len(),
            cur@.len() > 0 ==> k >= 1 && !is_space(line@[k - 1]),
            k >= 1 && !is_space(line@[k - 1]) ==> cur@.len() > 0,
            cur@.len() == 0 ==> tokens(line@.take(k as int)).len() == out@.len(),
            cur@.len() > 0 ==> tokens(line@.take(k as int)).len() == out@.len() + 1 && tokens(
                line@.take(k as int),
            ).last() == cur@,
            forall|i: int| 0 <= i < out@.len() ==> (#[trigger] out@[i])@ == tokens(line@.take(k as int))[i],
        decreases line@.len() - k,
    {
        let b = line[k];
        let ghost before = tokens(line@.take(k as int));
        proof {
            assert(line@.take(k + 1).drop_last() == line@.take(k as int));
            assert(line@.take(k + 1).last() == b);
        }
        if is_space_byte(b) {
            if cur.len() > 0 {
                let mut done: Vec<u8> = Vec::new();
                core::mem::swap(&mut done, &mut cur);
                out.push(done);
            }
        } else {
            cur.push(b);
            proof {
                if k >= 1 {
                    assert(line@.take(k + 1)[k - 1] == line@[k - 1]);
                }
            }
        }
        k = k + 1;
    }
    proof {
        assert(line@.take(line@.len() as int) == line@);
    }
    if cur.len() > 0 {
        out.push(cur);
    }
    out
}

pub open spec fn is_digit(b: u8) -> bool {
    48 <= b && b <= 57
}

/// `s` is one or more decimal digits.
pub open spec fn all_digits(s: Seq<u8>) -> bool {
    s.len() > 0 && forall|k: int| 0 <= k < s.len() ==> is_digit(#[trigger] s[k])
}

/// The value of the decimal digits `s`.
pub open spec fn digits_value(s: Seq<u8>) -> int
    decreases s.len(),
{
    if s.len() == 0 {
        0
    } else {
        digits_value(s.drop_last()) * 10 + (s.last() - 48)
    }
}

/// The number a token spells, read as Rust reads integers: an optional `+`
/// (or, when `signed`, `-`) and one or more decimal digits.
pub open spec fn token_number(tok: Seq<u8>, signed: bool) -> Option<int> {
    if tok.len() > 0 && tok[0] == 43 && all_digits(tok.drop_first()) {
        Some(digits_value(tok.drop_first()))
    } else if signed && tok.len() > 0 && tok[0] == 45 && all_digits(tok.drop_first()) {
        Some(-digits_value(tok.drop_first()))
    } else if all_digits(tok) {
        Some(digits_value(tok))
    } else {
        None
    }
}

/// The `usize` a token spells, if it spells one in range.
pub open spec fn spec_parse_usize(tok: Seq<u8>) -> Option<usize> {
    match token_number(tok, false) {
        Some(v) => if 0 <= v <= usize::MAX {
            Some(v as usize)
        } else {
            None
        },
        None => None,
    }
}

/// The `i64` a token spells, if it spells one in range.
pub open spec fn spec_parse_i64(tok: Seq<u8>) -> Option<i64> {
    match token_number(tok, true) {
        Some(v) => if i64::MIN <= v <= i64::MAX {
            Some(v as i64)
        } else {
            None
        },
        None => None,
    }
}

proof fn lemma_digits_value_nonneg(s: Seq<u8>)
    requires
        forall|k: int| 0 <= k < s.len() ==> is_digit(#[trigger] s[k]),
    ensures
        digits_value(s) >= 0,
    decreases s.len(),
{
    if s.len() > 0 {
        lemma_digits_value_nonneg(s.drop_last());
    }
}

/// Appending digits never makes the value smaller.
proof fn lemma_digits_value_grows(s: Seq<u8>, k: int)
    requires
        0 <= k <= s.len(),
        forall|j: int| 0 <= j < s.len() ==> is_digit(#[trigger] s[j]),
    ensures
        digits_value(s.take(k)) <= digits_value(s),
    decreases s.len() - k,
{
    if k < s.len() {
        lemma_digits_value_grows(s, k + 1);
        assert(s.take(k + 1).drop_last() == s.take(k));
        lemma_digits_value_nonneg(s.take(k));
    } else {
        assert(s.take(k) == s);
    }
}

/// The value of the digits `tok[from..]`, or `None` when it exceeds `u64::MAX`.
fn digits_to_u64(tok: &[u8], from: usize) -> (r: Option<u64>)
    requires
        from < tok@.len(),
        all_digits(tok@.subrange(from as int, tok@.len() as int)),
    ensures
        r == (if digits_value(tok@.subrange(from as int, tok@.len() as int)) <= u64::MAX {
            Some(digits_value(tok@.subrange(from as int, tok@.len() as int)) as u64)
        } else {
            None
        }),
{
    let ghost d = tok@.subrange(from as int, tok@.len() as int);
    let mut acc: u64 = 0;
    let mut k: usize = from;
    while k < tok.len()
        invariant
            from <= k <= tok@.len(),
            d == tok@.subrange(from as int, tok@.len() as int),
            all_digits(d),
            acc == digits_value(d.take(k - from)),
        decreases tok@.len() - k,
    {
        let ghost j = k - from;
        proof {
            assert(d.take(j + 1).drop_last() == d.take(j));
            assert(d.take(j + 1).last() == tok@[k as int]);
            assert(is_digit(d[j]));
        }
        let digit = (tok[k] - 48) as u64;
        if acc > (u64::MAX - digit) / 10 {
            proof {
                lemma_digits_value_grows(d, j + 1);
            }
            return None;
        }
        acc = acc * 10 + digit;
        k = k + 1;
    }
    proof {
        assert(d.take(d.len() as int) == d);
    }
    Some(acc)
}

/// The `usize` that `tok` spells.
pub fn parse_usize(tok: &[u8]) -> (r: Option<usize>)
    ensures
        r == spec_parse_usize(tok@),
{
    if tok.len() == 0 {
        return None;
    }
    let from: usize = if tok[0] == 43 { 1 } else { 0 };
    if from >= tok.len() {
        return None;
    }
    let mut k: usize = from;
    while k < tok.len()
        invariant
            tok@.len() > 0,
            from == (if tok@[0] == 43 { 1usize } else { 0usize }),
            from <= k <= tok@.len(),
            forall|j: int| from <= j < k ==> is_digit(#[trigger] tok@[j]),
        decreases tok@.len() - k,
    {
        if !(48 <= tok[k] && tok[k] <= 57) {
            proof {
                assert(!is_digit(tok@[k as int]));
                assert(k == 0 || !is_digit(tok@.drop_first()[k - 1]));
                assert(!all_digits(tok@));
            }
            return None;
        }
        k = k + 1;
    }
    let ghost d = tok@.subrange(from as int, tok@.len() as int);
    proof {
        assert forall|j: int| 0 <= j < d.len() implies is_digit(#[trigger] d[j]) by {
            assert(d[j] == tok@[from + j]);
        }
        if from == 1 {
            assert(d == tok@.drop_first());
        } else {
            assert(d == tok@);
        }
        lemma_digits_value_nonneg(d);
    }
    match digits_to_u64(tok, from) {
        Some(v) => {
            if v <= usize::MAX as u64 {
                Some(v as usize)
            } else {
                None
            }
        },
        None => None,
    }
}

/// The `i64` that `tok` spells.
pub fn parse_i64(tok: &[u8]) -> (r: Option<i64>)
    ensures
        r == spec_parse_i64(tok@),
{
    if tok.len() == 0 {
        return None;
    }
    let negative = tok[0] == 45;
    let from: usize = if tok[0] == 43 || tok[0] == 45 { 1 } else { 0 };
    if from >= tok.len() {
        return None;
    }
    let mut k: usize = from;
    while k < tok.len()
        invariant
            tok@.len() > 0,
            from == (if tok@[0] == 43 || tok@[0] == 45 { 1usize } else { 0usize }),
            negative == (tok@[0] == 45),
            from <= k <= tok@.len(),
            forall|j: int| from <= j < k ==> is_digit(#[trigger] tok@[j]),
        decreases tok@.len() - k,
    {
        if !(48 <= tok[k] && tok[k] <= 57) {
            proof {
                assert(!is_digit(tok@[k as int]));
                assert(k == 0 || !is_digit(tok@.drop_first()[k - 1]));
                assert(!all_digits(tok@));
            }
            return None;
        }
        k = k + 1;
    }
    let ghost d = tok@.subrange(from as int, tok@.len() as int);
    proof {
        assert forall|j: int| 0 <= j < d.len() implies is_digit(#[trigger] d[j]) by {
            assert(d[j] == tok@[from + j]);
        }
        if from == 1 {
            assert(d == tok@.drop_first());
        } else {
            assert(d == tok@);
        }
        lemma_digits_value_nonneg(d);
    }
    match digits_to_u64(tok, from) {
        Some(v) => {
            if negative {
                if v <= 9_223_372_036_854_775_808u64 {
                    if v == 9_223_372_036_854_775_808u64 {
                        Some(i64::MIN)
                    } else {
                        Some(-(v as i64))
                    }
                } else {
                    None
                }
            } else if v <= i64::MAX as u64 {
                Some(v as i64)
            } else {
                None
            }
        },
        None => None,
    }
}

/// Why a line could not be read.
#[derive(Debug, Clone, Copy, PartialEq, Eq, Structural)]
pub enum ParseError {
    /// The line has fewer tokens than it must.
    MissingToken,
    /// A token is not a number of the expected type, or not a valid 1-indexed id.
    BadNumber,
    /// The judge answered a receive with -1.
    Refused,
}

/// The 0-indexed ids that the 1-indexed tokens `ts` spell, if each spells one.
pub open spec fn spec_ids(ts: Seq<Seq<u8>>) -> Option<Seq<usize>>
    decreases ts.len(),
{
    if ts.len() == 0 {
        Some(seq![])
    } else {
        match spec_ids(ts.drop_last()) {
            Some(v) => match spec_parse_usize(ts.last()) {
                Some(x) => if x >= 1 {
                    Some(v.push((x - 1) as usize))
                } else {
                    None
                },
                None => None,
            },
            None => None,
        }
    }
}

/// The `i64`s that the tokens `ts` spell, if each spells one.
pub open spec fn spec_i64s(ts: Seq<Seq<u8>>) -> Option<Seq<i64>>
    decreases ts.len(),
{
    if ts.len() == 0 {
        Some(seq![])
    } else {
        match spec_i64s(ts.drop_last()) {
            Some(v) => match spec_parse_i64(ts.last()) {
                Some(x) => Some(v.push(x)),
                None => None,
            },
            None => None,
        }
    }
}

/// The tokens of `ts` from `from`, at most `count` of them.
pub open spec fn following(ts: Seq<Seq<u8>>, from: int, count: int) -> Seq<Seq<u8>> {
    if from >= ts.len() {
        seq![]
    } else if from + count < ts.len() {
        ts.subrange(from, from + count)
    } else {
        ts.subrange(from, ts.len() as int)
    }
}

proof fn lemma_ids_prefix_none(s: Seq<Seq<u8>>, j: int)
    requires
        0 <= j <= s.len(),
        spec_ids(s.take(j)) is None,
    ensures
        spec_ids(s) is None,
    decreases s.len(),
{
    if j == s.len() {
        assert(s.take(j) == s);
    } else {
        assert(s.drop_last().take(j) == s.take(j));
        lemma_ids_prefix_none(s.drop_last(), j);
    }
}

proof fn lemma_i64s_prefix_none(s: Seq<Seq<u8>>, j: int)
    requires
        0 <= j <= s.len(),
        spec_i64s(s.take(j)) is None,
    ensures
        spec_i64s(s) is None,
    decreases s.len(),
{
    if j == s.len() {
        assert(s.take(j) == s);
    } else {
        assert(s.drop_last().take(j) == s.take(j));
        lemma_i64s_prefix_none(s.drop_last(), j);
    }
}

/// The 0-indexed ids of `ts[from..to]`.
fn parse_ids(ts: &Vec<Vec<u8>>, from: usize, to: usize) -> (r: Option<Vec<usize>>)
    requires
        from <= to <= ts@.len(),
    ensures
        match r {
            Some(v) => spec_ids(ts@.subrange(from as int, to as int).map_values(|t: Vec<u8>| t@)) == Some(v@),
            None => spec_ids(ts@.subrange(from as int, to as int).map_values(|t: Vec<u8>| t@)) is None,
        },
{
    let ghost all = ts@.map_values(|t: Vec<u8>| t@);
    let mut out: Vec<usize> = Vec::with_capacity(to - from);
    let mut k: usize = from;
    while k < to
        invariant
            from <= k <= to <= ts@.len(),
            all == ts@.map_values(|t: Vec<u8>| t@),
            spec_ids(all.subrange(from as int, k as int)) == Some(out@),
        decreases to - k,
    {
        proof {
            assert(all.subrange(from as int, k + 1).drop_last() == all.subrange(from as int, k as int));
            assert(all.subrange(from as int, k + 1).last() == ts@[k as int]@);
        }
        match parse_usize(ts[k].as_slice()) {
            Some(x) => {
                if x == 0 {
                    proof {
                        let whole = all.subrange(from as int, to as int);
                        assert(whole.take(k + 1 - from) == all.subrange(from as int, k + 1));
                        lemma_ids_prefix_none(whole, k + 1 - from);
                        assert(whole == ts@.subrange(from as int, to as int).map_values(|t: Vec<u8>| t@));
                    }
                    return None;
                }
                out.push(x - 1);
            },
            None => {
                proof {
                    let whole = all.subrange(from as int, to as int);
                    assert(whole.take(k + 1 - from) == all.subrange(from as int, k + 1));
                    lemma_ids_prefix_none(whole, k + 1 - from);
                    assert(whole == ts@.subrange(from as int, to as int).map_values(|t: Vec<u8>| t@));
                }
                return None;
            },
        }
        k = k + 1;
    }
    proof {
        assert(all.subrange(from as int, to as int) == ts@.subrange(from as int, to as int).map_values(|t: Vec<u8>| t@));
    }
    Some(out)
}

/// The `i64`s of `ts[from..to]`.
fn parse_i64s(ts: &Vec<Vec<u8>>, from: usize, to: usize) -> (r: Option<Vec<i64>>)
    requires
        from <= to <= ts@.len(),
    ensures
        match r {
            Some(v) => spec_i64s(ts@.subrange(from as int, to as int).map_values(|t: Vec<u8>| t@)) == Some(v@),
            None => spec_i64s(ts@.subrange(from as int, to as int).map_values(|t: Vec<u8>| t@)) is None,
        },
{
    let ghost all = ts@.map_values(|t: Vec<u8>| t@);
    let mut out: Vec<i64> = Vec::with_capacity(to - from);
    let mut k: usize = from;
    while k < to
        invariant
            from <= k <= to <= ts@.len(),
            all == ts@.map_values(|t: Vec<u8>| t@),
            spec_i64s(all.subrange(from as int, k as int)) == Some(out@),
        decreases to - k,
    {
        proof {
            assert(all.subrange(from as int, k + 1).drop_last() == all.subrange(from as int, k as int));
            assert(all.subrange(from as int, k + 1).last() == ts@[k as int]@);
        }
        match parse_i64(ts[k].as_slice()) {
            Some(x) => {
                out.push(x);
            },
            None => {
                proof {
                    let whole = all.subrange(from as int, to as int);
                    assert(whole.take(k + 1 - from) == all.subrange(from as int, k + 1));
                    lemma_i64s_prefix_none(whole, k + 1 - from);
                    assert(whole == ts@.subrange(from as int, to as int).map_values(|t: Vec<u8>| t@));
                }
                return None;
            },
        }
        k = k + 1;
    }
    proof {
        assert(all.subrange(from as int, to as int) == ts@.subrange(from as int, to as int).map_values(|t: Vec<u8>| t@));
    }
    Some(out)
}

/// The end of the run of at most `count` tokens from `from`.
fn following_end(len: usize, from: usize, count: usize) -> (r: usize)
    requires
        from <= len,
    ensures
        from <= r <= len,
        r == (if from + count < len { from + count } else { len as int }),
{
    if count < len - from {
        from + count
    } else {
        len
    }
}

/// A path line: the path's length `l`, then up to `l` 1-indexed nodes.
pub open spec fn spec_path_line(ts: Seq<Seq<u8>>) -> Result<(usize, Seq<usize>), ParseError> {
    if ts.len() == 0 {
        Err(ParseError::MissingToken)
    } else {
        match spec_parse_usize(ts[0]) {
            Some(l) => match spec_ids(following(ts, 1, l as int)) {
                Some(path) => Ok((l, path)),
                None => Err(ParseError::BadNumber),
            },
            None => Err(ParseError::BadNumber),
        }
    }
}

/// A node line: the largest batch `b`, then up to `b` costs; the cost of an empty batch, 0, comes first.
pub open spec fn spec_node_line(ts: Seq<Seq<u8>>) -> Result<Seq<i64>, ParseError> {
    if ts.len() == 0 {
        Err(ParseError::MissingToken)
    } else {
        match spec_parse_usize(ts[0]) {
            Some(b) => match spec_i64s(following(ts, 1, b as int)) {
                Some(costs) => Ok(seq![0i64] + costs),
                None => Err(ParseError::BadNumber),
            },
            None => Err(ParseError::BadNumber),
        }
    }
}

/// The special costs line: up to `N_SPECIAL` costs.
pub open spec fn spec_special_line(ts: Seq<Seq<u8>>) -> Result<Seq<i64>, ParseError> {
    match spec_i64s(following(ts, 0, N_SPECIAL as int)) {
        Some(costs) => Ok(costs),
        None => Err(ParseError::BadNumber),
    }
}

proof fn lemma_following_views(ts: Seq<Vec<u8>>, from: int, count: int, to: int)
    requires
        0 <= from <= ts.len(),
        count >= 0,
        to == (if from + count < ts.len() { from + count } else { ts.len() as int }),
    ensures
        ts.subrange(from, to).map_values(|t: Vec<u8>| t@) == following(ts.map_values(|t: Vec<u8>| t@), from, count),
{
    assert(ts.subrange(from, to).map_values(|t: Vec<u8>| t@) =~= following(ts.map_values(|t: Vec<u8>| t@), from, count));
}

/// Reads a path line.
pub fn parse_path_line(line: &[u8]) -> (r: Result<PacketPath, ParseError>)
    ensures
        match r {
            Ok(p) => spec_path_line(tokens(line@)) == Ok::<(usize, Seq<usize>), ParseError>((p.l, p.path@)),
            Err(e) => spec_path_line(tokens(line@)) == Err::<(usize, Seq<usize>), ParseError>(e),
        },
{
    let ts = split_tokens(line);
    let ghost tv = ts@.map_values(|t: Vec<u8>| t@);
    proof {
        assert(tv =~= tokens(line@));
    }
    if ts.len() == 0 {
        return Err(ParseError::MissingToken);
    }
    let l = match parse_usize(ts[0].as_slice()) {
        Some(l) => l,
        None => {
            return Err(ParseError::BadNumber);
        },
    };
    let to = following_end(ts.len(), 1, l);
    proof {
        lemma_following_views(ts@, 1, l as int, to as int);
    }
    match parse_ids(&ts, 1, to) {
        Some(path) => Ok(PacketPath { l, path }),
        None => Err(ParseError::BadNumber),
    }
}

/// Reads a node line.
pub fn parse_node_line(line: &[u8]) -> (r: Result<Node, ParseError>)
    ensures
        match r {
            Ok(n) => spec_node_line(tokens(line@)) == Ok::<Seq<i64>, ParseError>(n.costs@),
            Err(e) => spec_node_line(tokens(line@)) == Err::<Seq<i64>, ParseError>(e),
        },
{
    let ts = split_tokens(line);
    let ghost tv = ts@.map_values(|t: Vec<u8>| t@);
    proof {
        assert(tv =~= tokens(line@));
    }
    if ts.len() == 0 {
        return Err(ParseError::MissingToken);
    }
    let b = match parse_usize(ts[0].as_slice()) {
        Some(b) => b,
        None => {
            return Err(ParseError::BadNumber);
        },
    };
    let to = following_end(ts.len(), 1, b);
    proof {
        lemma_following_views(ts@, 1, b as int, to as int);
    }
    match parse_i64s(&ts, 1, to) {
        Some(costs) => {
            let ghost given = costs@;
            let mut costs = costs;
            costs.insert(0, 0);
            proof {
                assert(costs@ =~= seq![0i64] + given);
            }
            Ok(Node { costs })
        },
        None => Err(ParseError::BadNumber),
    }
}

/// Reads the special costs line.
pub fn parse_special_line(line: &[u8]) -> (r: Result<Vec<i64>, ParseError>)
    ensures
        match r {
            Ok(c) => spec_special_line(tokens(line@)) == Ok::<Seq<i64>, ParseError>(c@),
            Err(e) => spec_special_line(tokens(line@)) == Err::<Seq<i64>, ParseError>(e),
        },
{
    let ts = split_tokens(line);
    let ghost tv = ts@.map_values(|t: Vec<u8>| t@);
    proof {
        assert(tv =~= tokens(line@));
    }
    let to = following_end(ts.len(), 0, N_SPECIAL);
    proof {
        lemma_following_views(ts@, 0, N_SPECIAL as int, to as int);
    }
    match parse_i64s(&ts, 0, to) {
        Some(costs) => Ok(costs),
        None => Err(ParseError::BadNumber),
    }
}

/// The machine line: the number of cores, the cost of a core switch, the cost of a receive.
pub open spec fn spec_input_line(ts: Seq<Seq<u8>>) -> Result<Input, ParseError> {
    if ts.len() < 1 {
        Err(ParseError::MissingToken)
    } else if spec_parse_usize(ts[0]) is None {
        Err(ParseError::BadNumber)
    } else if ts.len() < 2 {
        Err(ParseError::MissingToken)
    } else if spec_parse_i64(ts[1]) is None {
        Err(ParseError::BadNumber)
    } else if ts.len() < 3 {
        Err(ParseError::MissingToken)
    } else if spec_parse_i64(ts[2]) is None {
        Err(ParseError::BadNumber)
    } else {
        Ok(
            Input {
                n_cores: spec_parse_usize(ts[0])->0,
                cost_switch: spec_parse_i64(ts[1])->0,
                cost_r: spec_parse_i64(ts[2])->0,
            },
        )
    }
}

/// Reads the machine line.
pub fn parse_input_line(line: &[u8]) -> (r: Result<Input, ParseError>)
    ensures
        r == spec_input_line(tokens(line@)),
{
    let ts = split_tokens(line);
    let ghost tv = ts@.map_values(|t: Vec<u8>| t@);
    proof {
        assert(tv =~= tokens(line@));
    }
    if ts.len() < 1 {
        return Err(ParseError::MissingToken);
    }
    let n_cores = match parse_usize(ts[0].as_slice()) {
        Some(x) => x,
        None => {
            return Err(ParseError::BadNumber);
        },
    };
    if ts.len() < 2 {
        return Err(ParseError::MissingToken);
    }
    let cost_switch = match parse_i64(ts[1].as_slice()) {
        Some(x) => x,
        None => {
            return Err(ParseError::BadNumber);
        },
    };
    if ts.len() < 3 {
        return Err(ParseError::MissingToken);
    }
    let cost_r = match parse_i64(ts[2].as_slice()) {
        Some(x) => x,
        None => {
            return Err(ParseError::BadNumber);
        },
    };
    Ok(Input { n_cores, cost_switch, cost_r })
}

/// The answer to a receive: the number of packets that follow, or -1 for a refusal.
pub open spec fn spec_receive_count(line: Seq<u8>) -> Result<usize, ParseError> {
    match spec_parse_i64(line) {
        Some(p) => if p == -1 {
            Err(ParseError::Refused)
        } else if p < 0 || p > usize::MAX {
            Err(ParseError::BadNumber)
        } else {
            Ok(p as usize)
        },
        None => Err(ParseError::BadNumber),
    }
}

/// Reads the answer to a receive.
pub fn parse_receive_count(line: &[u8]) -> (r: Result<usize, ParseError>)
    ensures
        r == spec_receive_count(line@),
{
    match parse_i64(line) {
        Some(p) => {
            if p == -1 {
                Err(ParseError::Refused)
            } else if p < 0 || p as u64 > usize::MAX as u64 {
                Err(ParseError::BadNumber)
            } else {
                Ok(p as usize)
            }
        },
        None => Err(ParseError::BadNumber),
    }
}

/// A packet line of a receive at `t`: the packet's 1-indexed id, its arrival,
/// its 1-indexed type and its timeout; its deadline is arrival plus timeout.
pub open spec fn spec_packet_line(ts: Seq<Seq<u8>>, t: i64) -> Result<Packet, ParseError> {
    if ts.len() < 1 {
        Err(ParseError::MissingToken)
    } else if spec_parse_usize(ts[0]) is None || spec_parse_usize(ts[0])->0 == 0 {
        Err(ParseError::BadNumber)
    } else if ts.len() < 2 {
        Err(ParseError::MissingToken)
    } else if spec_parse_i64(ts[1]) is None {
        Err(ParseError::BadNumber)
    } else if ts.len() < 3 {
        Err(ParseError::MissingToken)
    } else if spec_parse_usize(ts[2]) is None || spec_parse_usize(ts[2])->0 == 0 {
        Err(ParseError::BadNumber)
    } else if ts.len() < 4 {
        Err(ParseError::MissingToken)
    } else if spec_parse_i64(ts[3]) is None {
        Err(ParseError::BadNumber)
    } else {
        let arrive = spec_parse_i64(ts[1])->0;
        let timeout = spec_parse_i64(ts[3])->0;
        if arrive + timeout < i64::MIN || arrive + timeout > i64::MAX {
            Err(ParseError::BadNumber)
        } else {
            Ok(
                Packet {
                    i: (spec_parse_usize(ts[0])->0 - 1) as usize,
                    arrive,
                    packet_type: (spec_parse_usize(ts[2])->0 - 1) as usize,
                    timeout,
                    time_limit: (arrive + timeout) as i64,
                    received_t: t,
                },
            )
        }
    }
}

/// Reads a packet line of a receive at `t`.
pub fn parse_packet_line(line: &[u8], t: i64) -> (r: Result<Packet, ParseError>)
    ensures
        r == spec_packet_line(tokens(line@), t),
{
    let ts = split_tokens(line);
    let ghost tv = ts@.map_values(|t: Vec<u8>| t@);
    proof {
        assert(tv =~= tokens(line@));
    }
    if ts.len() < 1 {
        return Err(ParseError::MissingToken);
    }
    let id = match parse_usize(ts[0].as_slice()) {
        Some(x) => x,
        None => {
            return Err(ParseError::BadNumber);
        },
    };
    if id == 0 {
        return Err(ParseError::BadNumber);
    }
    if ts.len() < 2 {
        return Err(ParseError::MissingToken);
    }
    let arrive = match parse_i64(ts[1].as_slice()) {
        Some(x) => x,
        None => {
            return Err(ParseError::BadNumber);
        },
    };
    if ts.len() < 3 {
        return Err(ParseError::MissingToken);
    }
    let packet_type = match parse_usize(ts[2].as_slice()) {
        Some(x) => x,
        None => {
            return Err(ParseError::BadNumber);
        },
    };
    if packet_type == 0 {
        return Err(ParseError::BadNumber);
    }
    if ts.len() < 4 {
        return Err(ParseError::MissingToken);
    }
    let timeout = match parse_i64(ts[3].as_slice()) {
        Some(x) => x,
        None => {
            return Err(ParseError::BadNumber);
        },
    };
    let time_limit = match arrive.checked_add(timeout) {
        Some(x) => x,
        None => {
            return Err(ParseError::BadNumber);
        },
    };
    Ok(Packet { i: id - 1, arrive, packet_type: packet_type - 1, timeout, time_limit, received_t: t })
}

/// Bit `j` of `bitmap`.
pub open spec fn bit_set(bitmap: i64, j: u32) -> bool {
    (bitmap & (1i64 << j)) != 0
}

/// The answer to a query for a packet's works: a bitmap of the special works
/// it needs, or -1 when the judge does not answer.
pub open spec fn spec_works_line(line: Seq<u8>) -> Result<Option<Seq<bool>>, ParseError> {
    match spec_parse_i64(line) {
        Some(b) => if b == -1 {
            Ok(None)
        } else {
            Ok(Some(Seq::new(N_SPECIAL as nat, |j: int| bit_set(b, j as u32))))
        },
        None => Err(ParseError::BadNumber),
    }
}

/// Reads the answer to a query for a packet's works.
pub fn parse_works_line(line: &[u8]) -> (r: Result<Option<[bool; N_SPECIAL]>, ParseError>)
    ensures
        match r {
            Ok(Some(bits)) => spec_works_line(line@) == Ok::<Option<Seq<bool>>, ParseError>(Some(bits@)),
            Ok(None) => spec_works_line(line@) == Ok::<Option<Seq<bool>>, ParseError>(None),
            Err(e) => spec_works_line(line@) == Err::<Option<Seq<bool>>, ParseError>(e),
        },
{
    let b = match parse_i64(line) {
        Some(x) => x,
        None => {
            return Err(ParseError::BadNumber);
        },
    };
    if b == -1 {
        return Ok(None);
    }
    let mut bits: [bool; N_SPECIAL] = [false; 8];
    let mut j: u32 = 0;
    while j < 8
        invariant
            j <= 8,
            forall|jj: int| 0 <= jj < j ==> #[trigger] bits@[jj] == bit_set(b, jj as u32),
        decreases 8 - j,
    {
        bits[j as usize] = (b & (1i64 << j)) != 0;
        j = j + 1;
    }
    proof {
        assert(bits@ =~= Seq::new(N_SPECIAL as nat, |jj: int| bit_set(b, jj as u32)));
    }
    Ok(Some(bits))
}

/// The number of lines that describe the graph: a path per packet type, a
/// cost table per node, and the special costs.
pub const GRAPH_LINES: usize = 28;

/// What is wrong with line `k` of the graph description, if anything.
pub open spec fn graph_line_error(lines: Seq<Seq<u8>>, k: int) -> Option<ParseError> {
    if k < N_PACKET_TYPE {
        match spec_path_line(tokens(lines[k])) {
            Ok(_) => None,
            Err(e) => Some(e),
        }
    } else if k < N_PACKET_TYPE + N_NODE {
        match spec_node_line(tokens(lines[k])) {
            Ok(_) => None,
            Err(e) => Some(e),
        }
    } else {
        match spec_special_line(tokens(lines[k])) {
            Ok(_) => None,
            Err(e) => Some(e),
        }
    }
}

/// The bytes of each line.
pub open spec fn line_views(lines: Seq<Vec<u8>>) -> Seq<Seq<u8>> {
    lines.map_values(|l: Vec<u8>| l@)
}

/// `g` is the graph that `lines` describe.
pub open spec fn describes_graph(lines: Seq<Seq<u8>>, g: Graph) -> bool {
    &&& g.paths@.len() == N_PACKET_TYPE
    &&& g.nodes@.len() == N_NODE
    &&& forall|t: int| 0 <= t < N_PACKET_TYPE ==> spec_path_line(tokens(lines[t]))
        == Ok::<(usize, Seq<usize>), ParseError>(((#[trigger] g.paths@[t]).l, g.paths@[t].path@))
    &&& forall|v: int| 0 <= v < N_NODE ==> spec_node_line(tokens(lines[N_PACKET_TYPE + v]))
        == Ok::<Seq<i64>, ParseError>((#[trigger] g.nodes@[v]).costs@)
    &&& spec_special_line(tokens(lines[N_PACKET_TYPE + N_NODE])) == Ok::<Seq<i64>, ParseError>(
        g.special_costs@,
    )
}

/// Reads the graph from its description: the paths, then the nodes, then the
/// special costs; the first line that cannot be read gives the error.
pub fn parse_graph(lines: &Vec<Vec<u8>>) -> (r: Result<Graph, ParseError>)
    requires
        lines@.len() == GRAPH_LINES,
    ensures
        match r {
            Ok(g) => describes_graph(line_views(lines@), g),
            Err(e) => exists|k: int|
                0 <= k < GRAPH_LINES && graph_line_error(line_views(lines@), k) == Some(e)
                    && forall|j: int| 0 <= j < k ==> #[trigger] graph_line_error(line_views(lines@), j) is None,
        },
{
    let ghost lv = line_views(lines@);
    let mut paths: Vec<PacketPath> = Vec::with_capacity(N_PACKET_TYPE);
    let mut k: usize = 0;
    while k < N_PACKET_TYPE
        invariant
            lines@.len() == GRAPH_LINES,
            lv == line_views(lines@),
            k <= N_PACKET_TYPE,
            paths@.len() == k,
            forall|t: int| 0 <= t < k ==> spec_path_line(tokens(lv[t]))
                == Ok::<(usize, Seq<usize>), ParseError>(((#[trigger] paths@[t]).l, paths@[t].path@)),
            forall|j: int| 0 <= j < k ==> #[trigger] graph_line_error(lv, j) is None,
        decreases N_PACKET_TYPE - k,
    {
        match parse_path_line(lines[k].as_slice()) {
            Ok(p) => {
                paths.push(p);
            },
            Err(e) => {
                assert(graph_line_error(lv, k as int) == Some(e));
                return Err(e);
            },
        }
        k = k + 1;
    }
    let mut nodes: Vec<Node> = Vec::with_capacity(N_NODE);
    let mut v: usize = 0;
    while v < N_NODE
        invariant
            lines@.len() == GRAPH_LINES,
            lv == line_views(lines@),
            v <= N_NODE,
            nodes@.len() == v,
            forall|w: int| 0 <= w < v ==> spec_node_line(tokens(lv[N_PACKET_TYPE + w]))
                == Ok::<Seq<i64>, ParseError>((#[trigger] nodes@[w]).costs@),
            forall|j: int| 0 <= j < N_PACKET_TYPE + v ==> #[trigger] graph_line_error(lv, j) is None,
        decreases N_NODE - v,
    {
        match parse_node_line(lines[N_PACKET_TYPE + v].as_slice()) {
            Ok(n) => {
                nodes.push(n);
            },
            Err(e) => {
                assert(graph_line_error(lv, N_PACKET_TYPE + v) == Some(e));
                return Err(e);
            },
        }
        v = v + 1;
    }
    match parse_special_line(lines[N_PACKET_TYPE + N_NODE].as_slice()) {
        Ok(special_costs) => Ok(Graph { paths, nodes, special_costs }),
        Err(e) => {
            assert(graph_line_error(lv, (N_PACKET_TYPE + N_NODE) as int) == Some(e));
            Err(e)
        },
    }
}

/// Every cost of `c` is within `0..=MAX_COST`.
fn costs_in_range(c: &[i64]) -> (r: bool)
    ensures
        r == (forall|k: int| 0 <= k < c@.len() ==> 0 <= #[trigger] c@[k] <= MAX_COST),
{
    let mut k: usize = 0;
    while k < c.len()
        invariant
            k <= c@.len(),
            forall|j: int| 0 <= j < k ==> 0 <= #[trigger] c@[j] <= MAX_COST,
        decreases c@.len() - k,
    {
        if c[k] < 0 || c[k] > MAX_COST {
            return false;
        }
        k = k + 1;
    }
    true
}

fn path_is_valid(p: &PacketPath) -> (r: bool)
    ensures
        r == path_wf(*p),
{
    if p.path.len() < 1 || p.path.len() > MAX_PATH_LEN || p.l != p.path.len() {
        return false;
    }
    let mut k: usize = 0;
    while k < p.path.len()
        invariant
            k <= p.path@.len(),
            forall|j: int| 0 <= j < k ==> #[trigger] p.path@[j] < N_NODE,
        decreases p.path@.len() - k,
    {
        if p.path[k] >= N_NODE {
            return false;
        }
        k = k + 1;
    }
    true
}

fn node_is_valid(n: &Node) -> (r: bool)
    ensures
        r == node_wf(*n),
{
    if n.costs.len() < 2 || n.costs.len() > MAX_NODE_BATCH + 1 {
        return false;
    }
    costs_in_range(n.costs.as_slice())
}

/// Whether `g` has the shape the schedulers rely on (`Graph::wf`).
pub fn graph_is_valid(g: &Graph) -> (r: bool)
    ensures
        r == g.wf(),
{
    if g.paths.len() != N_PACKET_TYPE || g.nodes.len() != N_NODE || g.special_costs.len() != N_SPECIAL {
        return false;
    }
    let mut t: usize = 0;
    while t < N_PACKET_TYPE
        invariant
            g.paths@.len() == N_PACKET_TYPE,
            t <= N_PACKET_TYPE,
            forall|j: int| 0 <= j < t ==> path_wf(#[trigger] g.paths@[j]),
        decreases N_PACKET_TYPE - t,
    {
        if !path_is_valid(&g.paths[t]) {
            return false;
        }
        t = t + 1;
    }
    let mut v: usize = 0;
    while v < N_NODE
        invariant
            g.nodes@.len() == N_NODE,
            v <= N_NODE,
            forall|j: int| 0 <= j < v ==> node_wf(#[trigger] g.nodes@[j]),
        decreases N_NODE - v,
    {
        if !node_is_valid(&g.nodes[v]) {
            return false;
        }
        v = v + 1;
    }
    costs_in_range(g.special_costs.as_slice())
}

/// Whether the greedy scheduler can run on `g` (`graph_fits`).
pub fn fits_greedy(g: &Graph) -> (r: bool)
    ensures
        r == graph_fits(*g),
{
    if !graph_is_valid(g) {
        return false;
    }
    g.nodes[SPECIAL_NODE_ID].costs.len() - 1 >= MAX_TASK_PACKETS
}

/// Whether the fallback scheduler can run on `g` (`fallback_fits`).
pub fn fits_fallback(g: &Graph) -> (r: bool)
    ensures
        r == fallback_fits(*g),
{
    if !graph_is_valid(g) {
        return false;
    }
    let sizes = FALLBACK_BATCH_SIZES;
    let mut t: usize = 0;
    while t < N_PACKET_TYPE
        invariant
            g.wf(),
            sizes@ == seq![49usize, 49, 49, 8, 8, 49, 49],
            t <= N_PACKET_TYPE,
            forall|u: int, k: int|
                0 <= u < t && 0 <= k < g.path_len(u) ==> #[trigger] g.max_batch(g.node_at(u, k) as int)
                    >= fallback_batch(u),
        decreases N_PACKET_TYPE - t,
    {
        let path = &g.paths[t].path;
        assert(path_wf(g.paths@[t as int]));
        let mut k: usize = 0;
        while k < path.len()
            invariant
                g.wf(),
                sizes@ == seq![49usize, 49, 49, 8, 8, 49, 49],
                t < N_PACKET_TYPE,
                *path == g.paths@[t as int].path,
                path_wf(g.paths@[t as int]),
                k <= path@.len(),
                forall|u: int, kk: int|
                    0 <= u < t && 0 <= kk < g.path_len(u) ==> #[trigger] g.max_batch(g.node_at(u, kk) as int)
                        >= fallback_batch(u),
                forall|kk: int| 0 <= kk < k ==> #[trigger] g.max_batch(g.node_at(t as int, kk) as int)
                    >= fallback_batch(t as int),
            decreases path@.len() - k,
        {
            let v = path[k];
            assert(node_wf(g.nodes@[v as int]));
            if g.nodes[v].costs.len() - 1 < sizes[t] {
                assert(g.max_batch(g.node_at(t as int, k as int) as int) < fallback_batch(t as int));
                return false;
            }
            k = k + 1;
        }
        assert forall|u: int, kk: int|
            0 <= u < t + 1 && 0 <= kk < g.path_len(u) implies #[trigger] g.max_batch(g.node_at(u, kk) as int)
                >= fallback_batch(u) by {
            if u == t {
                assert(g.max_batch(g.node_at(t as int, kk) as int) >= fallback_batch(t as int));
            }
        }
        t = t + 1;
    }
    true
}

/// Whether `input` is within the limits the schedulers rely on (`Input::wf`).
pub fn input_is_valid(input: &Input) -> (r: bool)
    ensures
        r == input.wf(),
{
    1 <= input.n_cores && input.n_cores <= MAX_CORES && 0 <= input.cost_switch && input.cost_switch <= MAX_COST
        && 0 <= input.cost_r && input.cost_r <= MAX_COST
}

} // verus!
