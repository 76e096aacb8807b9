//! Structure of a trace buffer: string-aware nesting depth, known at every
//! block start, and the byte ranges of the `traceEvents` array and the
//! `metadata` object.

use vstd::prelude::*;
use vstd::slice::slice_subrange;
use vstd::string::StringSliceAdditionalSpecFns;
use vstd::utf8::encode_utf8;
use crate::bytes::{occurs_at, BACKSLASH, COLON, LBRACE, LBRACKET, QUOTE, RBRACE, RBRACKET};
use crate::trace::token::{skip_ws, ws_end};

verus! {

/// State of the string-aware walk before a byte: nesting depth, whether the
/// byte lies inside a string, and whether it is escaped there.
pub struct Lex {
    pub depth: int,
    pub in_str: bool,
    pub esc: bool,
}

/// The state at the start of a buffer.
pub open spec fn lex_start() -> Lex {
    Lex { depth: 0, in_str: false, esc: false }
}

pub open spec fn is_open(b: u8) -> bool {
    b == LBRACE || b == LBRACKET
}

pub open spec fn is_close(b: u8) -> bool {
    b == RBRACE || b == RBRACKET
}

/// The state after one more byte.
pub open spec fn lex_step(st: Lex, b: u8) -> Lex {
    if st.in_str {
        if st.esc {
            Lex { esc: false, ..st }
        } else if b == BACKSLASH {
            Lex { esc: true, ..st }
        } else if b == QUOTE {
            Lex { in_str: false, ..st }
        } else {
            st
        }
    } else if b == QUOTE {
        Lex { in_str: true, ..st }
    } else if is_open(b) {
        Lex { depth: st.depth + 1, ..st }
    } else if is_close(b) {
        Lex { depth: st.depth - 1, ..st }
    } else {
        st
    }
}

/// The state after the bytes `s`, starting from `st`.
pub open spec fn lex_walk(s: Seq<u8>, st: Lex) -> Lex
    decreases s.len(),
{
    if s.len() == 0 {
        st
    } else {
        lex_step(lex_walk(s.drop_last(), st), s.last())
    }
}

/// Walking a range in two parts, split anywhere, also between a backslash and
/// the byte that it escapes, and carrying the state from one to the other, ends
/// as one walk over the whole.
pub proof fn lemma_walk_concat(a: Seq<u8>, b: Seq<u8>, st: Lex)
    ensures
        lex_walk(a + b, st) == lex_walk(b, lex_walk(a, st)),
    decreases b.len(),
{
    if b.len() == 0 {
        assert(a + b =~= a);
    } else {
        assert((a + b).drop_last() =~= a + b.drop_last());
        assert((a + b).last() == b.last());
        lemma_walk_concat(a, b.drop_last(), st);
    }
}

/// One byte further: the state after `s[..=i]` is one step from that after
/// `s[..i]`.
pub proof fn lemma_walk_step(s: Seq<u8>, from: int, i: int, st: Lex)
    requires
        0 <= from <= i < s.len(),
    ensures
        lex_walk(s.subrange(from, i + 1), st) == lex_step(lex_walk(s.subrange(from, i), st), s[i]),
{
    assert(s.subrange(from, i + 1).drop_last() =~= s.subrange(from, i));
}

/// The string state of a walk does not depend on the depth it starts from,
/// and its depth is moved by as much as the starting depth.
pub proof fn lemma_walk_shift(s: Seq<u8>, st: Lex, k: int)
    ensures
        lex_walk(s, Lex { depth: st.depth + k, ..st }) == (Lex {
            depth: lex_walk(s, st).depth + k,
            ..lex_walk(s, st)
        }),
    decreases s.len(),
{
    if s.len() > 0 {
        lemma_walk_shift(s.drop_last(), st, k);
    }
}

/// A byte moves the depth by at most one.
pub proof fn lemma_walk_bound(s: Seq<u8>, st: Lex)
    ensures
        st.depth - s.len() <= lex_walk(s, st).depth <= st.depth + s.len(),
    decreases s.len(),
{
    if s.len() > 0 {
        lemma_walk_bound(s.drop_last(), st);
    }
}

/// String-aware walk over a byte range, updating depth and in-string state.
/// `esc` carries the escape-pending state in and out.
pub fn walk_range(r: &[u8], d: &mut i64, s: &mut bool, esc: &mut bool)
    requires
        i64::MIN + r@.len() <= *old(d) <= i64::MAX - r@.len(),
    ensures
        (Lex { depth: *final(d) as int, in_str: *final(s), esc: *final(esc) }) == lex_walk(
            r@,
            Lex { depth: *old(d) as int, in_str: *old(s), esc: *old(esc) },
        ),
{
    let ghost st = Lex { depth: *d as int, in_str: *s, esc: *esc };
    let mut depth: i64 = *d;
    let mut in_str = *s;
    let mut e = *esc;
    let mut i: usize = 0;
    assert(r@.subrange(0, 0) =~= Seq::<u8>::empty());
    while i < r.len()
        invariant
            i <= r@.len(),
            st.depth - i <= depth <= st.depth + i,
            i64::MIN + r@.len() <= st.depth <= i64::MAX - r@.len(),
            (Lex { depth: depth as int, in_str: in_str, esc: e }) == lex_walk(
                r@.subrange(0, i as int),
                st,
            ),
        decreases r@.len() - i,
    {
        let b = r[i];
        proof {
            lemma_walk_step(r@, 0, i as int, st);
        }
        if in_str {
            if e {
                e = false;
            } else if b == BACKSLASH {
                e = true;
            } else if b == QUOTE {
                in_str = false;
            }
        } else if b == QUOTE {
            in_str = true;
        } else if b == LBRACE || b == LBRACKET {
            depth = depth + 1;
        } else if b == RBRACE || b == RBRACKET {
            depth = depth - 1;
        }
        i = i + 1;
    }
    assert(r@.subrange(0, r@.len() as int) =~= r@);
    *d = depth;
    *s = in_str;
    *esc = e;
}

/// Length of the run of backslashes that ends `s`, a run reaching the start
/// of `s` going on into `t` more before it.
pub open spec fn back_run(s: Seq<u8>, t: nat) -> nat
    decreases s.len(),
{
    if s.len() == 0 {
        t
    } else if s.last() == BACKSLASH {
        1 + back_run(s.drop_last(), t)
    } else {
        0
    }
}

/// Number of quotes in `s` that an even run of backslashes precedes, with `t`
/// backslashes before `s`.
pub open spec fn unescaped_quotes(s: Seq<u8>, t: nat) -> nat
    decreases s.len(),
{
    if s.len() == 0 {
        0
    } else {
        unescaped_quotes(s.drop_last(), t) + if s.last() == QUOTE && back_run(s.drop_last(), t) % 2
            == 0 {
            1nat
        } else {
            0nat
        }
    }
}

proof fn lemma_back_run_concat(a: Seq<u8>, b: Seq<u8>, t: nat)
    ensures
        back_run(a + b, t) == back_run(b, back_run(a, t)),
        unescaped_quotes(a + b, t) == unescaped_quotes(a, t) + unescaped_quotes(b, back_run(a, t)),
    decreases b.len(),
{
    if b.len() == 0 {
        assert(a + b =~= a);
    } else {
        assert((a + b).drop_last() =~= a + b.drop_last());
        lemma_back_run_concat(a, b.drop_last(), t);
    }
}

proof fn lemma_back_run_bound(s: Seq<u8>, t: nat)
    ensures
        back_run(s, t) <= s.len() + t,
        unescaped_quotes(s, t) <= s.len(),
    decreases s.len(),
{
    if s.len() > 0 {
        lemma_back_run_bound(s.drop_last(), t);
    }
}

proof fn lemma_no_quote(s: Seq<u8>, a: int, b: int, t: nat)
    requires
        0 <= a <= b <= s.len(),
        forall|j: int| a <= j < b ==> s[j] != QUOTE,
    ensures
        unescaped_quotes(s.take(b), t) == unescaped_quotes(s.take(a), t),
    decreases b - a,
{
    if a < b {
        assert(s.take(b).drop_last() =~= s.take(b - 1));
        lemma_no_quote(s, a, b - 1, t);
    }
}

/// Count the unescaped quotes of `chunk`. A quote is escaped when an odd run
/// of backslashes precedes it; a run reaching the start of the chunk goes on
/// into the `prev_trail` backslashes that end what lies before. Also gives
/// the length of the run that ends the chunk.
pub fn count_unescaped_quotes(chunk: &[u8], prev_trail: usize) -> (r: (usize, usize))
    requires
        chunk@.len() + prev_trail <= usize::MAX,
    ensures
        r.0 == unescaped_quotes(chunk@, prev_trail as nat),
        r.1 == back_run(chunk@, prev_trail as nat),
{
    let ghost t = prev_trail as nat;
    let mut nq: usize = 0;
    let mut pos: usize = 0;
    let mut more = true;
    while more
        invariant
            pos <= chunk@.len(),
            nq <= pos,
            chunk@.len() + prev_trail <= usize::MAX,
            t == prev_trail,
            nq == unescaped_quotes(chunk@.take(pos as int), t),
            !more ==> pos == chunk@.len(),
        decreases chunk@.len() - pos + if more { 1int } else { 0int },
    {
        let rest = slice_subrange(chunk, pos, chunk.len());
        match memchr::memchr(QUOTE, rest) {
            Some(rel) => {
                let q: usize = pos + rel;
                assert forall|j: int| pos <= j < q implies chunk@[j] != QUOTE by {
                    assert(rest@[j - pos] == chunk@[j]);
                }
                assert(chunk@[q as int] == rest@[rel as int]);
                let run = trailing_run(chunk, q, prev_trail);
                proof {
                    lemma_no_quote(chunk@, pos as int, q as int, t);
                    lemma_back_run_bound(chunk@.take(q as int), t);
                    assert(chunk@.take(q + 1).drop_last() =~= chunk@.take(q as int));
                }
                if run % 2 == 0 {
                    nq = nq + 1;
                }
                pos = q + 1;
            },
            None => {
                assert forall|j: int| pos <= j < chunk@.len() implies chunk@[j] != QUOTE by {
                    assert(rest@[j - pos] == chunk@[j]);
                }
                proof {
                    lemma_no_quote(chunk@, pos as int, chunk@.len() as int, t);
                    lemma_back_run_bound(chunk@, t);
                    assert(chunk@.take(chunk@.len() as int) =~= chunk@);
                }
                pos = chunk.len();
                more = false;
            },
        }
    }
    assert(chunk@.take(chunk@.len() as int) =~= chunk@);
    let trail = trailing_run(chunk, chunk.len(), prev_trail);
    (nq, trail)
}

/// Length of the run of backslashes just before position `q` of `chunk`.
pub(crate) fn trailing_run(chunk: &[u8], q: usize, prev_trail: usize) -> (run: usize)
    requires
        q <= chunk@.len(),
        q + prev_trail <= usize::MAX,
    ensures
        run == back_run(chunk@.take(q as int), prev_trail as nat),
{
    let mut run: usize = 0;
    let mut k: usize = q;
    while k > 0 && chunk[k - 1] == BACKSLASH
        invariant
            k <= q <= chunk@.len(),
            run == q - k,
            run + back_run(chunk@.take(k as int), prev_trail as nat) == back_run(
                chunk@.take(q as int),
                prev_trail as nat,
            ),
        decreases k,
    {
        assert(chunk@.take(k as int).drop_last() =~= chunk@.take(k - 1));
        run = run + 1;
        k = k - 1;
    }
    if k == 0 {
        run + prev_trail
    } else {
        run
    }
}

/// Bytes per block.
pub const BLOCK: usize = 65536;

/// Per-block structure: nesting depth, in-string state and escape-pending
/// state at each block start. The first two hold one more entry, for the end
/// of the buffer.
pub struct Blocks {
    pub depth_at: Vec<i64>,
    pub in_string_at: Vec<bool>,
    pub esc_at: Vec<bool>,
}

/// Number of blocks of a buffer of `len` bytes.
pub open spec fn block_count(len: nat) -> nat {
    ((len + BLOCK - 1) / BLOCK as int) as nat
}

/// Position where block `k` starts; the end of the buffer for the last entry.
pub open spec fn block_start(len: nat, k: int) -> int {
    if k * BLOCK < len {
        k * BLOCK
    } else {
        len as int
    }
}

/// The state that `blocks` records for the start of block `k`.
pub open spec fn block_state(blocks: Blocks, k: int) -> Lex {
    Lex {
        depth: blocks.depth_at@[k] as int,
        in_str: blocks.in_string_at@[k],
        esc: blocks.esc_at@[k],
    }
}

/// The blocks' tables have one entry per block, and one more for the end.
pub open spec fn blocks_sized(bytes: Seq<u8>, blocks: Blocks) -> bool {
    let nb = block_count(bytes.len());
    &&& blocks.depth_at@.len() == nb + 1
    &&& blocks.in_string_at@.len() == nb + 1
    &&& blocks.esc_at@.len() == nb
    &&& forall|k: int| 0 <= k <= nb ==> -block_start(bytes.len(), k) <= #[trigger] blocks.depth_at@[k]
        <= block_start(bytes.len(), k)
}

/// What each entry of the blocks' tables says: in-string by the parity of the
/// unescaped quotes before the block, escape-pending by that of the run of
/// backslashes that ends it, depth by the string-aware walk over each block.
pub open spec fn blocks_of(bytes: Seq<u8>, blocks: Blocks) -> bool {
    let len = bytes.len();
    let nb = block_count(len);
    &&& blocks_sized(bytes, blocks)
    &&& forall|k: int|
        0 <= k <= nb ==> (#[trigger] blocks.in_string_at@[k] <==> unescaped_quotes(
            bytes.take(block_start(len, k)),
            0,
        ) % 2 == 1)
    &&& forall|k: int|
        0 <= k < nb ==> (#[trigger] blocks.esc_at@[k] <==> blocks.in_string_at@[k] && back_run(
            bytes.take(block_start(len, k)),
            0,
        ) % 2 == 1)
    &&& blocks.depth_at@[0] == 0
    &&& forall|k: int|
        0 <= k < nb ==> blocks.depth_at@[k + 1] == lex_walk(
            bytes.subrange(block_start(len, k), block_start(len, k + 1)),
            #[trigger] block_state(blocks, k),
        ).depth
}

/// The tables agree with the buffer up to the start of block `k`.
spec fn tables_upto(
    bytes: Seq<u8>,
    depths: Seq<i64>,
    strs: Seq<bool>,
    escs: Seq<bool>,
    k: int,
) -> bool {
    let len = bytes.len();
    &&& depths.len() == k + 1
    &&& strs.len() == k + 1
    &&& escs.len() == k
    &&& depths[0] == 0
    &&& forall|j: int|
        0 <= j <= k ==> -block_start(len, j) <= #[trigger] depths[j] <= block_start(len, j)
    &&& forall|j: int|
        0 <= j <= k ==> (#[trigger] strs[j] <==> unescaped_quotes(
            bytes.take(block_start(len, j)),
            0,
        ) % 2 == 1)
    &&& forall|j: int|
        0 <= j < k ==> (#[trigger] escs[j] <==> strs[j] && back_run(
            bytes.take(block_start(len, j)),
            0,
        ) % 2 == 1)
    &&& forall|j: int|
        0 <= j < k ==> depths[j + 1] == lex_walk(
            bytes.subrange(block_start(len, j), block_start(len, j + 1)),
            Lex { depth: depths[j] as int, in_str: strs[j], esc: #[trigger] escs[j] },
        ).depth
}

proof fn lemma_tables_push(
    bytes: Seq<u8>,
    depths: Seq<i64>,
    strs: Seq<bool>,
    escs: Seq<bool>,
    k: int,
    d: i64,
    s: bool,
    e: bool,
)
    requires
        0 <= k,
        tables_upto(bytes, depths, strs, escs, k),
        -block_start(bytes.len(), k + 1) <= d <= block_start(bytes.len(), k + 1),
        s <==> unescaped_quotes(bytes.take(block_start(bytes.len(), k + 1)), 0) % 2 == 1,
        e <==> strs[k] && back_run(bytes.take(block_start(bytes.len(), k)), 0) % 2 == 1,
        d == lex_walk(
            bytes.subrange(block_start(bytes.len(), k), block_start(bytes.len(), k + 1)),
            Lex { depth: depths[k] as int, in_str: strs[k], esc: e },
        ).depth,
    ensures
        tables_upto(bytes, depths.push(d), strs.push(s), escs.push(e), k + 1),
{
    let d2 = depths.push(d);
    let s2 = strs.push(s);
    let e2 = escs.push(e);
    let len = bytes.len();
    assert forall|j: int| 0 <= j < k + 1 implies d2[j + 1] == lex_walk(
        bytes.subrange(block_start(len, j), block_start(len, j + 1)),
        Lex { depth: d2[j] as int, in_str: s2[j], esc: #[trigger] e2[j] },
    ).depth by {
        if j < k {
            assert(e2[j] == escs[j]);
        }
    }
    assert forall|j: int| 0 <= j < k + 1 implies (#[trigger] e2[j] <==> s2[j] && back_run(
        bytes.take(block_start(len, j)),
        0,
    ) % 2 == 1) by {
        if j < k {
            assert(e2[j] == escs[j]);
        }
    }
}

/// Record the walk's state at every block start.
pub fn build_blocks(bytes: &[u8]) -> (blocks: Blocks)
    requires
        bytes@.len() <= i64::MAX,
    ensures
        blocks_of(bytes@, blocks),
{
    let n = bytes.len();
    let ghost len = bytes@.len();
    let ghost nb = block_count(len) as int;
    let mut depth_at: Vec<i64> = Vec::new();
    let mut in_string_at: Vec<bool> = Vec::new();
    let mut esc_at: Vec<bool> = Vec::new();
    let mut start: usize = 0;
    let mut depth: i64 = 0;
    let mut in_str = false;
    let mut trail: usize = 0;
    depth_at.push(0);
    in_string_at.push(false);
    let ghost mut k: int = 0;
    assert(bytes@.take(0) =~= Seq::<u8>::empty());
    while start < n
        invariant
            n == len,
            len == bytes@.len(),
            len <= i64::MAX,
            nb == block_count(len),
            0 <= k <= nb,
            start == block_start(len, k),
            tables_upto(bytes@, depth_at@, in_string_at@, esc_at@, k),
            depth == depth_at@[k],
            in_str == in_string_at@[k],
            trail == back_run(bytes@.take(start as int), 0),
        decreases n - start,
    {
        let end: usize = if n - start < BLOCK {
            n
        } else {
            start + BLOCK
        };
        let chunk = slice_subrange(bytes, start, end);
        let ghost before = bytes@.take(start as int);
        proof {
            assert(k < nb);
            assert(start == k * BLOCK);
            assert(end == block_start(len, k + 1));
            assert(bytes@.take(end as int) =~= before + chunk@);
            lemma_back_run_bound(before, 0);
            lemma_back_run_concat(before, chunk@, 0);
        }
        let esc0 = in_str && trail % 2 == 1;
        let mut dd: i64 = 0;
        let mut st = in_str;
        let mut esc = esc0;
        walk_range(chunk, &mut dd, &mut st, &mut esc);
        proof {
            let s0 = Lex { depth: 0, in_str: in_str, esc: esc0 };
            lemma_walk_bound(chunk@, s0);
            lemma_walk_shift(chunk@, s0, depth as int);
            assert(-start <= depth <= start);
        }
        let (nq, next_trail) = count_unescaped_quotes(chunk, trail);
        let next_depth: i64 = depth + dd;
        let next_str = if nq % 2 == 1 {
            !in_str
        } else {
            in_str
        };
        proof {
            assert(in_str <==> unescaped_quotes(before, 0) % 2 == 1) by {
                let t = in_string_at@[k];
            }
            lemma_tables_push(
                bytes@,
                depth_at@,
                in_string_at@,
                esc_at@,
                k,
                next_depth,
                next_str,
                esc0,
            );
        }
        esc_at.push(esc0);
        depth = next_depth;
        depth_at.push(depth);
        in_str = next_str;
        in_string_at.push(in_str);
        trail = next_trail;
        proof {
            k = k + 1;
        }
        start = end;
    }
    let blocks = Blocks { depth_at, in_string_at, esc_at };
    proof {
        assert(k == nb);
        assert forall|j: int| 0 <= j < nb implies blocks.depth_at@[j + 1] == lex_walk(
            bytes@.subrange(block_start(len, j), block_start(len, j + 1)),
            #[trigger] block_state(blocks, j),
        ).depth by {
            let t = blocks.esc_at@[j];
        }
    }
    blocks
}

/// Every backslash of the buffer lies inside a string, as in any JSON text.
pub open spec fn no_stray_backslash(bytes: Seq<u8>) -> bool {
    forall|i: int|
        0 <= i < bytes.len() && #[trigger] bytes[i] == BACKSLASH ==> lex_walk(
            bytes.take(i),
            lex_start(),
        ).in_str
}

proof fn lemma_parity_exact(bytes: Seq<u8>, n: int)
    requires
        no_stray_backslash(bytes),
        0 <= n <= bytes.len(),
    ensures
        ({
            let w = lex_walk(bytes.take(n), lex_start());
            &&& w.in_str == (unescaped_quotes(bytes.take(n), 0) % 2 == 1)
            &&& w.esc == (w.in_str && back_run(bytes.take(n), 0) % 2 == 1)
            &&& !w.in_str ==> back_run(bytes.take(n), 0) == 0
        }),
    decreases n,
{
    if n == 0 {
        assert(bytes.take(0) =~= Seq::<u8>::empty());
    } else {
        lemma_parity_exact(bytes, n - 1);
        assert(bytes.take(n).drop_last() =~= bytes.take(n - 1));
        assert(bytes.take(n).last() == bytes[n - 1]);
    }
}

/// The recorded state of every block start is the state that walking the
/// buffer from its first byte reaches there.
pub open spec fn exact(bytes: Seq<u8>, blocks: Blocks) -> bool {
    forall|k: int|
        0 <= k < block_count(bytes.len()) ==> #[trigger] block_state(blocks, k) == lex_walk(
            bytes.take(block_start(bytes.len(), k)),
            lex_start(),
        )
}

/// The blocks of a buffer without a backslash outside strings, as of any JSON
/// text, record exact states.
pub proof fn lemma_exact(bytes: Seq<u8>, blocks: Blocks)
    requires
        blocks_of(bytes, blocks),
        no_stray_backslash(bytes),
    ensures
        exact(bytes, blocks),
{
    assert forall|k: int| 0 <= k < block_count(bytes.len()) implies #[trigger] block_state(blocks, k)
        == lex_walk(bytes.take(block_start(bytes.len(), k)), lex_start()) by {
        lemma_blocks_exact(bytes, blocks, k);
    }
}

proof fn lemma_blocks_exact(bytes: Seq<u8>, blocks: Blocks, k: int)
    requires
        blocks_of(bytes, blocks),
        no_stray_backslash(bytes),
        0 <= k < block_count(bytes.len()),
    ensures
        block_state(blocks, k) == lex_walk(bytes.take(block_start(bytes.len(), k)), lex_start()),
    decreases k,
{
    let len = bytes.len();
    let p = block_start(len, k);
    lemma_parity_exact(bytes, p);
    let e = blocks.esc_at@[k];
    let s = blocks.in_string_at@[k];
    if k == 0 {
        assert(bytes.take(0) =~= Seq::<u8>::empty());
    } else {
        let q = block_start(len, k - 1);
        lemma_blocks_exact(bytes, blocks, k - 1);
        assert(bytes.take(p) =~= bytes.take(q) + bytes.subrange(q, p));
        lemma_walk_concat(bytes.take(q), bytes.subrange(q, p), lex_start());
    }
}

/// The state before position `pos`, walked from the start of its block.
pub open spec fn lex_at(bytes: Seq<u8>, blocks: Blocks, block: int, pos: int) -> Lex {
    lex_walk(bytes.subrange(block * BLOCK, pos), block_state(blocks, block))
}

/// The state before a position, walked from the start of any block that does
/// not lie behind it, is the one that walking the whole buffer reaches there.
pub proof fn lemma_lex_at_exact(bytes: Seq<u8>, blocks: Blocks, block: int, pos: int)
    requires
        exact(bytes, blocks),
        0 <= block,
        block * BLOCK <= pos <= bytes.len(),
        block * BLOCK < bytes.len(),
    ensures
        lex_at(bytes, blocks, block, pos) == lex_walk(bytes.take(pos), lex_start()),
{
    let q = block * BLOCK;
    assert(block_state(blocks, block) == lex_walk(bytes.take(q), lex_start()));
    assert(bytes.take(pos) =~= bytes.take(q) + bytes.subrange(q, pos));
    lemma_walk_concat(bytes.take(q), bytes.subrange(q, pos), lex_start());
}

/// Depth and in-string state at byte `pos`, by walking only the prefix of its
/// block.
pub fn state_at(bytes: &[u8], blocks: &Blocks, pos: usize) -> (r: (i64, bool))
    requires
        bytes@.len() <= i64::MAX,
        blocks_sized(bytes@, *blocks),
        pos < bytes@.len(),
    ensures
        r.0 == lex_at(bytes@, *blocks, pos as int / BLOCK as int, pos as int).depth,
        r.1 == lex_at(bytes@, *blocks, pos as int / BLOCK as int, pos as int).in_str,
{
    let block: usize = pos / BLOCK;
    let start: usize = block * BLOCK;
    let ghost at = blocks.depth_at@[block as int];
    let mut d: i64 = blocks.depth_at[block];
    let mut s = blocks.in_string_at[block];
    let mut esc = blocks.esc_at[block];
    walk_range(slice_subrange(bytes, start, pos), &mut d, &mut s, &mut esc);
    (d, s)
}

/// Where the value starts of the member whose key `needle` stands at `m`,
/// quoted and followed by a colon, when that value is an array or an object.
pub open spec fn member_value(bytes: Seq<u8>, needle: Seq<u8>, m: int) -> Option<int> {
    let after = m + needle.len();
    let colon = ws_end(bytes, after + 1);
    let j = ws_end(bytes, colon + 1);
    if 1 <= m && occurs_at(bytes, needle, m) && bytes[m - 1] == QUOTE && after < bytes.len()
        && bytes[after] == QUOTE && colon < bytes.len() && bytes[colon] == COLON && j < bytes.len()
        && is_open(bytes[j]) {
        Some(j)
    } else {
        None
    }
}

/// The key `needle` at `m` is that of a top-level member: its value opens at
/// depth one.
pub open spec fn top_level_member(bytes: Seq<u8>, blocks: Blocks, needle: Seq<u8>, m: int) -> bool {
    match member_value(bytes, needle, m) {
        Some(j) => lex_at(bytes, blocks, j / BLOCK as int, j).depth == 1,
        None => false,
    }
}

/// The first top-level member with key `needle` opens its value at `j`.
pub open spec fn opens_first(bytes: Seq<u8>, blocks: Blocks, needle: Seq<u8>, j: int) -> bool {
    exists|m: int|
        {
            &&& #[trigger] top_level_member(bytes, blocks, needle, m)
            &&& member_value(bytes, needle, m) == Some(j)
            &&& forall|n: int| 0 <= n < m ==> !#[trigger] top_level_member(bytes, blocks, needle, n)
        }
}

/// No top-level member has the key `needle` and an array or object value.
pub open spec fn opens_nowhere(bytes: Seq<u8>, blocks: Blocks, needle: Seq<u8>) -> bool {
    forall|m: int| !#[trigger] top_level_member(bytes, blocks, needle, m)
}

/// Find the bracket or brace that opens the value of a top-level member, by
/// substring search and local probes. Gives its position and the byte there.
pub fn find_top_level_open(bytes: &[u8], blocks: &Blocks, needle: &[u8]) -> (r: Option<(usize, u8)>)
    requires
        bytes@.len() <= i64::MAX,
        blocks_sized(bytes@, *blocks),
        needle@.len() > 0,
        forall|i: int| 0 <= i < needle@.len() ==> needle@[i] != QUOTE,
    ensures
        match r {
            Some((j, opener)) => j < bytes@.len() && opens_first(bytes@, *blocks, needle@, j as int)
                && opener == bytes@[j as int],
            None => opens_nowhere(bytes@, *blocks, needle@),
        },
{
    let n = bytes.len();
    let mut pos: usize = 0;
    loop
        invariant
            n == bytes@.len(),
            n <= i64::MAX,
            blocks_sized(bytes@, *blocks),
            needle@.len() > 0,
            forall|i: int| 0 <= i < needle@.len() ==> needle@[i] != QUOTE,
            pos <= n,
            forall|m: int| m < pos ==> !#[trigger] top_level_member(bytes@, *blocks, needle@, m),
        decreases n - pos,
    {
        let rest = slice_subrange(bytes, pos, n);
        let found = memchr::memmem::find(rest, needle);
        proof {
            assert forall|m: int| pos <= m && occurs_at(bytes@, needle@, m) implies occurs_at(
                rest@,
                needle@,
                m - pos,
            ) by {
                assert(rest@.subrange(m - pos, m - pos + needle@.len()) =~= bytes@.subrange(
                    m,
                    m + needle@.len(),
                ));
            }
        }
        match found {
            None => {
                return None;
            },
            Some(rel) => {
                let m: usize = pos + rel;
                let after: usize = m + needle.len();
                assert(occurs_at(bytes@, needle@, m as int)) by {
                    assert(rest@.subrange(rel as int, rel + needle@.len()) =~= bytes@.subrange(
                        m as int,
                        m + needle@.len(),
                    ));
                }
                if m > 0 && bytes[m - 1] == QUOTE && after < n && bytes[after] == QUOTE {
                    let c = skip_ws(bytes, after + 1);
                    if c < n && bytes[c] == COLON {
                        let j = skip_ws(bytes, c + 1);
                        if j < n && (bytes[j] == LBRACKET || bytes[j] == LBRACE) {
                            let (d, _s) = state_at(bytes, blocks, j);
                            if d == 1 {
                                assert(top_level_member(bytes@, *blocks, needle@, m as int));
                                return Some((j, bytes[j]));
                            }
                        }
                    }
                }
                proof {
                    assert forall|x: int| x < after implies !#[trigger] top_level_member(
                        bytes@,
                        *blocks,
                        needle@,
                        x,
                    ) by {
                        if m < x && occurs_at(bytes@, needle@, x) {
                            assert(bytes@[x - 1] == bytes@.subrange(m as int, m + needle@.len())[x - 1
                                - m]);
                        }
                    }
                }
                pos = after;
            },
        }
    }
}

/// The bracket or brace `c` at `i` closes a depth-two value, as walked from
/// the start of `block`.
pub open spec fn closes_second(bytes: Seq<u8>, blocks: Blocks, block: int, i: int, c: u8) -> bool {
    let st = lex_at(bytes, blocks, block, i);
    !st.in_str && st.depth == 2 && bytes[i] == c
}

/// The first close `c` of a depth-two value in `[from, end)`, walked from the
/// start of `block`.
fn find_close(bytes: &[u8], blocks: &Blocks, block: usize, from: usize, end: usize, c: u8) -> (r:
    Option<usize>)
    requires
        bytes@.len() <= i64::MAX,
        blocks_sized(bytes@, *blocks),
        block * BLOCK <= from,
        from <= end <= bytes@.len(),
        block * BLOCK < bytes@.len(),
        is_close(c),
    ensures
        match r {
            Some(i) => from <= i < end && closes_second(bytes@, *blocks, block as int, i as int, c)
                && forall|j: int|
                from <= j < i ==> !#[trigger] closes_second(bytes@, *blocks, block as int, j, c),
            None => forall|j: int|
                from <= j < end ==> !#[trigger] closes_second(bytes@, *blocks, block as int, j, c),
        },
{
    let start: usize = block * BLOCK;
    let ghost init = block_state(*blocks, block as int);
    let ghost at = blocks.depth_at@[block as int];
    let mut d: i64 = blocks.depth_at[block];
    let mut s = blocks.in_string_at[block];
    let mut esc = blocks.esc_at[block];
    let mut i: usize = start;
    assert(bytes@.subrange(start as int, start as int) =~= Seq::<u8>::empty());
    while i < end
        invariant
            bytes@.len() <= i64::MAX,
            start == block * BLOCK,
            init == block_state(*blocks, block as int),
            start <= i <= end <= bytes@.len() || start <= i == end,
            end <= bytes@.len(),
            start <= from <= end,
            -i <= d <= i,
            (Lex { depth: d as int, in_str: s, esc: esc }) == lex_walk(
                bytes@.subrange(start as int, i as int),
                init,
            ),
            forall|j: int|
                from <= j < i ==> !#[trigger] closes_second(bytes@, *blocks, block as int, j, c),
        decreases end - i,
    {
        let b = bytes[i];
        proof {
            lemma_walk_step(bytes@, start as int, i as int, init);
        }
        if !s && d == 2 && b == c && i >= from {
            return Some(i);
        }
        if s {
            if esc {
                esc = false;
            } else if b == BACKSLASH {
                esc = true;
            } else if b == QUOTE {
                s = false;
            }
        } else if b == QUOTE {
            s = true;
        } else if b == LBRACE || b == LBRACKET {
            d = d + 1;
        } else if b == RBRACE || b == RBRACKET {
            d = d - 1;
        }
        i = i + 1;
    }
    None
}

/// Byte ranges of the top-level `traceEvents` array and `metadata` object.
pub struct Layout {
    pub arr_open: usize,
    pub arr_close: usize,
    pub metadata: Option<(usize, usize)>,
}

/// Blocks searched, from the end of the buffer, for the close of the array.
pub const TAIL_BLOCKS: usize = 16;

/// The array's close is sought among the last blocks.
pub open spec fn in_tail(bytes: Seq<u8>, k: int) -> bool {
    let nb = block_count(bytes.len());
    0 <= k < nb && nb - TAIL_BLOCKS <= k
}

/// Block `k` holds a close of a depth-two array.
pub open spec fn block_closes(bytes: Seq<u8>, blocks: Blocks, k: int) -> bool {
    exists|i: int|
        block_start(bytes.len(), k) <= i < block_start(bytes.len(), k + 1)
            && #[trigger] closes_second(bytes, blocks, k, i, RBRACKET)
}

/// The array closes at `i`: the first close of a depth-two array in the last
/// block of the tail that holds one.
pub open spec fn array_closes(bytes: Seq<u8>, blocks: Blocks, i: int) -> bool {
    exists|k: int| #[trigger] array_closes_in(bytes, blocks, k, i)
}

pub open spec fn array_closes_in(bytes: Seq<u8>, blocks: Blocks, k: int, i: int) -> bool {
    &&& in_tail(bytes, k)
    &&& block_start(bytes.len(), k) <= i < block_start(bytes.len(), k + 1)
    &&& closes_second(bytes, blocks, k, i, RBRACKET)
    &&& forall|j: int|
        block_start(bytes.len(), k) <= j < i ==> !#[trigger] closes_second(
            bytes,
            blocks,
            k,
            j,
            RBRACKET,
        )
    &&& forall|l: int| in_tail(bytes, l) && k < l ==> !#[trigger] block_closes(bytes, blocks, l)
}

/// The metadata object's range: from the brace that opens the first top-level
/// `metadata` member up to and with the first depth-two close after it.
pub open spec fn metadata_range(bytes: Seq<u8>, blocks: Blocks, range: Option<(usize, usize)>) -> bool {
    let key = encode_utf8("metadata"@);
    match range {
        Some((s, e)) => {
            &&& opens_first(bytes, blocks, key, s as int)
            &&& bytes[s as int] == LBRACE
            &&& s < e <= bytes.len()
            &&& closes_second(bytes, blocks, s as int / BLOCK as int, e - 1, RBRACE)
            &&& forall|j: int|
                s <= j < e - 1 ==> !#[trigger] closes_second(
                    bytes,
                    blocks,
                    s as int / BLOCK as int,
                    j,
                    RBRACE,
                )
        },
        None => {
            ||| opens_nowhere(bytes, blocks, key)
            ||| exists|s: int|
                #[trigger] opens_first(bytes, blocks, key, s) && (bytes[s] != LBRACE || forall|j: int|
                    s <= j < bytes.len() ==> !#[trigger] closes_second(
                        bytes,
                        blocks,
                        s / BLOCK as int,
                        j,
                        RBRACE,
                    ))
        },
    }
}

/// The close of the array, sought backwards through the tail blocks.
fn find_array_close(bytes: &[u8], blocks: &Blocks) -> (r: Option<usize>)
    requires
        bytes@.len() <= i64::MAX,
        blocks_sized(bytes@, *blocks),
    ensures
        match r {
            Some(i) => i < bytes@.len() && array_closes(bytes@, *blocks, i as int),
            None => forall|k: int|
                in_tail(bytes@, k) ==> !#[trigger] block_closes(bytes@, *blocks, k),
        },
{
    let n = bytes.len();
    let nb: usize = blocks.depth_at.len() - 1;
    let mut k: usize = nb;
    let ghost count = block_count(bytes@.len());
    while k > 0 && nb - k < TAIL_BLOCKS
        invariant
            n == bytes@.len(),
            n <= i64::MAX,
            blocks_sized(bytes@, *blocks),
            count == block_count(bytes@.len()),
            nb == count,
            k <= nb,
            nb - k <= TAIL_BLOCKS,
            forall|l: int|
                in_tail(bytes@, l) && k <= l ==> !#[trigger] block_closes(bytes@, *blocks, l),
        decreases k,
    {
        k = k - 1;
        assert(k * BLOCK < n);
        let start: usize = k * BLOCK;
        let end: usize = if n - start < BLOCK {
            n
        } else {
            start + BLOCK
        };
        assert(start == block_start(n as nat, k as int));
        assert(end == block_start(n as nat, k + 1));
        match find_close(bytes, blocks, k, start, end, RBRACKET) {
            Some(i) => {
                assert(array_closes_in(bytes@, *blocks, k as int, i as int));
                return Some(i);
            },
            None => {},
        }
    }
    None
}

/// `layout` is that of the buffer.
pub open spec fn layout_of(bytes: Seq<u8>, blocks: Blocks, layout: Layout) -> bool {
    &&& opens_first(bytes, blocks, encode_utf8("traceEvents"@), layout.arr_open as int)
    &&& array_closes(bytes, blocks, layout.arr_close as int)
    &&& layout.arr_open < layout.arr_close < bytes.len()
    &&& metadata_range(bytes, blocks, layout.metadata)
}

/// The buffer has no recognized layout: no top-level `traceEvents` member,
/// nothing behind its open, no close of an array in the tail, or only one that
/// stands before the open.
pub open spec fn no_layout(bytes: Seq<u8>, blocks: Blocks) -> bool {
    let key = encode_utf8("traceEvents"@);
    ||| opens_nowhere(bytes, blocks, key)
    ||| exists|open: int|
        {
            &&& #[trigger] opens_first(bytes, blocks, key, open)
            &&& {
                ||| open + 1 >= bytes.len()
                ||| forall|k: int| in_tail(bytes, k) ==> !#[trigger] block_closes(bytes, blocks, k)
                ||| exists|close: int| #[trigger] array_closes(bytes, blocks, close) && close <= open
            }
        }
}

/// Range of the `metadata` object.
fn find_metadata(bytes: &[u8], blocks: &Blocks) -> (r: Option<(usize, usize)>)
    requires
        bytes@.len() <= i64::MAX,
        blocks_sized(bytes@, *blocks),
    ensures
        metadata_range(bytes@, *blocks, r),
{
    proof {
        reveal_strlit("metadata");
    }
    broadcast use vstd::string::is_ascii_spec_bytes;

    let key = "metadata";
    assert(key.is_ascii());
    match find_top_level_open(bytes, blocks, key.as_bytes()) {
        Some((pos, opener)) => {
            if opener != LBRACE {
                return None;
            }
            match find_close(bytes, blocks, pos / BLOCK, pos, bytes.len(), RBRACE) {
                Some(i) => Some((pos, i + 1)),
                None => None,
            }
        },
        None => None,
    }
}

/// Locate the `traceEvents` array and the `metadata` object. `None` when the
/// structure is not recognized.
pub fn scan_layout(bytes: &[u8]) -> (r: Option<(Layout, Blocks)>)
    requires
        bytes@.len() <= i64::MAX,
    ensures
        match r {
            Some((layout, blocks)) => blocks_of(bytes@, blocks) && layout_of(bytes@, blocks, layout),
            None => exists|blocks: Blocks| #[trigger]
                blocks_of(bytes@, blocks) && no_layout(bytes@, blocks),
        },
{
    proof {
        reveal_strlit("traceEvents");
    }
    broadcast use vstd::string::is_ascii_spec_bytes;

    let blocks = build_blocks(bytes);
    let key = "traceEvents";
    assert(key.is_ascii());
    let arr_open: usize = match find_top_level_open(bytes, &blocks, key.as_bytes()) {
        Some((pos, _opener)) => pos,
        None => {
            return None;
        },
    };
    if bytes.len() - arr_open <= 1 {
        return None;
    }
    let arr_close: usize = match find_array_close(bytes, &blocks) {
        Some(i) => i,
        None => {
            return None;
        },
    };
    if arr_close <= arr_open {
        return None;
    }
    let metadata = find_metadata(bytes, &blocks);
    Some((Layout { arr_open, arr_close, metadata }, blocks))
}

/// A byte that can change depth or string state.
pub open spec fn is_structural(b: u8) -> bool {
    b == QUOTE || is_open(b) || is_close(b)
}

/// Over bytes that are not structural, depth and string state stay.
pub(crate) proof fn lemma_walk_plain(bytes: Seq<u8>, from: int, a: int, b: int, st: Lex)
    requires
        0 <= from <= a <= b <= bytes.len(),
        forall|j: int| a <= j < b ==> !is_structural(#[trigger] bytes[j]),
    ensures
        lex_walk(bytes.subrange(from, b), st).depth == lex_walk(bytes.subrange(from, a), st).depth,
        lex_walk(bytes.subrange(from, b), st).in_str == lex_walk(bytes.subrange(from, a), st).in_str,
    decreases b - a,
{
    if a < b {
        lemma_walk_plain(bytes, from, a, b - 1, st);
        lemma_walk_step(bytes, from, b - 1, st);
    }
}

/// Inside a string, a byte is escaped when an odd run of backslashes precedes
/// it.
pub(crate) proof fn lemma_esc_by_run(s: Seq<u8>, st: Lex, t: nat)
    requires
        st.in_str ==> (st.esc <==> t % 2 == 1),
        !st.in_str ==> !st.esc,
    ensures
        ({
            let w = lex_walk(s, st);
            &&& w.in_str ==> (w.esc <==> back_run(s, t) % 2 == 1)
            &&& !w.in_str ==> !w.esc
        }),
    decreases s.len(),
{
    if s.len() > 0 {
        lemma_esc_by_run(s.drop_last(), st, t);
    }
}

/// The bytes that one of the two structural searches looks for: closes, or
/// quotes and opens.
pub open spec fn sought(b: u8, close: bool) -> bool {
    if close {
        is_close(b)
    } else {
        b == QUOTE || is_open(b)
    }
}

/// `r` is the first position from `from` on of a byte that is sought.
pub open spec fn first_from(bytes: Seq<u8>, from: int, r: Option<usize>, close: bool) -> bool {
    match r {
        Some(i) => from <= i < bytes.len() && sought(bytes[i as int], close) && forall|j: int|
            from <= j < i ==> !sought(#[trigger] bytes[j], close),
        None => forall|j: int| from <= j < bytes.len() ==> !sought(#[trigger] bytes[j], close),
    }
}

/// The next quote or open.
pub(crate) fn next_open(bytes: &[u8], from: usize) -> (r: Option<usize>)
    requires
        from <= bytes@.len(),
    ensures
        first_from(bytes@, from as int, r, false),
{
    let rest = slice_subrange(bytes, from, bytes.len());
    assert forall|j: int| from <= j < bytes@.len() implies #[trigger] bytes@[j] == rest@[j - from] by {}
    match memchr::memchr3(QUOTE, LBRACE, LBRACKET, rest) {
        Some(i) => Some(from + i),
        None => None,
    }
}

/// The next close.
pub(crate) fn next_close(bytes: &[u8], from: usize) -> (r: Option<usize>)
    requires
        from <= bytes@.len(),
    ensures
        first_from(bytes@, from as int, r, true),
{
    let rest = slice_subrange(bytes, from, bytes.len());
    assert forall|j: int| from <= j < bytes@.len() implies #[trigger] bytes@[j] == rest@[j - from] by {}
    match memchr::memchr2(RBRACE, RBRACKET, rest) {
        Some(i) => Some(from + i),
        None => None,
    }
}

} // verus!
