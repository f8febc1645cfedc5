//! The matcher: it walks the input, finds back-references of three bytes or
//! more within a sliding window through an index of three-byte keys, and hands
//! literals and matches to a sink.

use std::collections::HashMap;
use vstd::prelude::*;
use crate::codes::Token;

verus! {

broadcast use vstd::std_specs::hash::group_hash_axioms;

/// The key of three bytes: the bytes as one number, the first the lowest.
pub open spec fn key_of(b0: u8, b1: u8, b2: u8) -> u32 {
    (b0 as int + 256 * (b1 as int) + 65536 * (b2 as int)) as u32
}

/// The key of the three bytes of `input` that start at `p`.
pub open spec fn key_at(input: Seq<u8>, p: int) -> u32 {
    key_of(input[p], input[p + 1], input[p + 2])
}

/// The entries of `list` that are at or above `floor`, in order.
pub open spec fn keep_from(list: Seq<usize>, floor: int) -> Seq<usize>
    decreases list.len(),
{
    if list.len() == 0 {
        Seq::empty()
    } else if list.last() >= floor {
        keep_from(list.drop_last(), floor).push(list.last())
    } else {
        keep_from(list.drop_last(), floor)
    }
}

/// The positions of `log` at which `input` holds the key `key`, in order.
pub open spec fn with_key(input: Seq<u8>, log: Seq<usize>, key: u32) -> Seq<usize>
    decreases log.len(),
{
    if log.len() == 0 {
        Seq::empty()
    } else if key_at(input, log.last() as int) == key {
        with_key(input, log.drop_last(), key).push(log.last())
    } else {
        with_key(input, log.drop_last(), key)
    }
}

/// The byte `k` places after `i` is the byte `k` places after `p`.
pub open spec fn same_byte(input: Seq<u8>, p: int, i: int, k: int) -> bool {
    input[i + k] == input[p + k]
}

/// How far the bytes from `i` on repeat those from `p` on: the first `j`, from
/// the given one on, at which they differ, the input ends, or `lookahead` is
/// reached.
pub open spec fn match_extent(input: Seq<u8>, p: int, i: int, j: int, lookahead: int) -> int
    decreases input.len() - i - j,
{
    if 0 <= p && 0 <= j && i + j < input.len() && j < lookahead && input[i + j] == input[p + j] {
        match_extent(input, p, i, j + 1, lookahead)
    } else {
        j
    }
}

/// The longest match at `i` among the candidate positions, as its length and
/// its position; of several longest ones the last, which is the nearest where
/// the candidates ascend. `(0, 0)` where there is no candidate.
pub open spec fn best_match(input: Seq<u8>, cands: Seq<usize>, i: int, lookahead: int) -> (
    int,
    int,
)
    decreases cands.len(),
{
    if cands.len() == 0 {
        (0, 0)
    } else {
        let before = best_match(input, cands.drop_last(), i, lookahead);
        let p = cands.last() as int;
        let len = match_extent(input, p, i, 3, lookahead);
        if len >= before.0 {
            (len, p)
        } else {
            before
        }
    }
}

/// The oldest position that is still within the window when the matcher
/// stands at `i`.
pub open spec fn window_floor(i: int, window: int) -> int {
    if i > window {
        i - window
    } else {
        0
    }
}

/// The positions `from`, `from + 1`, and so on, `count` of them.
pub open spec fn position_run(from: int, count: int) -> Seq<usize> {
    Seq::new(
        if count > 0 {
            count as nat
        } else {
            0
        },
        |k: int| (from + k) as usize,
    )
}

/// What the matcher has done when it stands at a position: the tokens that it
/// found, the positions that it recorded in its index, and the floor of its
/// window.
pub struct MatcherRun {
    pub tokens: Seq<Token>,
    pub log: Seq<usize>,
    pub floor: int,
}

/// The candidates for a match at `i`: the recorded positions with the key at
/// `i` that are within the window.
pub open spec fn candidates_at(input: Seq<u8>, window: int, i: int, log: Seq<usize>) -> Seq<usize> {
    keep_from(with_key(input, log, key_at(input, i)), window_floor(i, window))
}

/// The token that the matcher finds at `i`, with `log` the positions
/// recorded so far: a literal where fewer than three bytes are left or no
/// candidate is within the window, else the longest match.
pub open spec fn token_at(
    input: Seq<u8>,
    window: int,
    lookahead: int,
    i: int,
    log: Seq<usize>,
) -> Token {
    if i + 3 > input.len() {
        Token::Literal(input[i])
    } else {
        let cands = candidates_at(input, window, i, log);
        if cands.len() == 0 {
            Token::Literal(input[i])
        } else {
            let best = best_match(input, cands, i, lookahead);
            Token::Match { length: best.0, distance: i - best.1 }
        }
    }
}

/// The number of input bytes that a token covers.
pub open spec fn token_span(t: Token) -> int {
    match t {
        Token::Literal(_) => 1,
        Token::Match { length, distance } => length,
    }
}

/// The number of positions that the matcher records after the token `t` at
/// `i`: none where fewer than three bytes are left; the position itself after
/// a literal; after a match of `length` bytes the positions from `i` up to
/// `i + length - 2`, as far as three bytes are left at them.
pub open spec fn recorded_count(input: Seq<u8>, i: int, t: Token) -> int {
    if i + 3 > input.len() {
        0
    } else {
        match t {
            Token::Literal(_) => 1,
            Token::Match { length, distance } => if i + length - 1 <= input.len() - 2 {
                length - 1
            } else {
                input.len() - 2 - i
            },
        }
    }
}

/// The matcher's run from `i` to the end of the input, given what it has
/// done before `i`.
pub open spec fn run_from(
    input: Seq<u8>,
    window: int,
    lookahead: int,
    i: int,
    before: MatcherRun,
) -> MatcherRun
    decreases
        (if i < input.len() {
            input.len() - i
        } else {
            0
        }),
    via run_from_decreases
{
    if i < 0 || i >= input.len() {
        before
    } else {
        let t = token_at(input, window, lookahead, i, before.log);
        let next = MatcherRun {
            tokens: before.tokens.push(t),
            log: before.log + position_run(i, recorded_count(input, i, t)),
            floor: if i + 3 > input.len() {
                before.floor
            } else {
                window_floor(i, window)
            },
        };
        run_from(input, window, lookahead, i + token_span(t), next)
    }
}

/// A token covers at least one byte, so that the run goes forward.
#[via_fn]
proof fn run_from_decreases(
    input: Seq<u8>,
    window: int,
    lookahead: int,
    i: int,
    before: MatcherRun,
) {
    if 0 <= i && i + 3 <= input.len() {
        let cands = candidates_at(input, window, i, before.log);
        if cands.len() > 0 {
            lemma_best_match(input, cands, i, lookahead);
        }
    }
}

/// The matcher's run over the whole of `input`, from an empty index.
pub open spec fn matcher_run(input: Seq<u8>, window: int, lookahead: int) -> MatcherRun {
    run_from(
        input,
        window,
        lookahead,
        0,
        MatcherRun { tokens: Seq::empty(), log: Seq::empty(), floor: 0 },
    )
}

/// The tokens that the matcher finds in `input`.
pub open spec fn matcher_tokens(input: Seq<u8>, window: int, lookahead: int) -> Seq<Token> {
    matcher_run(input, window, lookahead).tokens
}

/// The decimal digits of `n` as text.
pub open spec fn decimal_digits(n: nat) -> Seq<u8>
    decreases n,
{
    if n < 10 {
        seq![(48 + n) as u8]
    } else {
        decimal_digits(n / 10).push((48 + n % 10) as u8)
    }
}

/// A match as text: `<`, the length, `,`, the distance, `>`.
pub open spec fn pair_text(length: nat, distance: nat) -> Seq<u8> {
    seq![60u8] + decimal_digits(length) + seq![44u8] + decimal_digits(distance) + seq![62u8]
}

/// A token as text: a literal as its byte, a match as its pair.
pub open spec fn token_text(t: Token) -> Seq<u8> {
    match t {
        Token::Literal(b) => seq![b],
        Token::Match { length, distance } => pair_text(length as nat, distance as nat),
    }
}

/// A run of tokens as text.
pub open spec fn tokens_text(tokens: Seq<Token>) -> Seq<u8>
    decreases tokens.len(),
{
    if tokens.len() == 0 {
        Seq::empty()
    } else {
        tokens_text(tokens.drop_last()) + token_text(tokens.last())
    }
}

/// The text of a single token.
pub proof fn lemma_tokens_text_one(t: Token)
    ensures
        tokens_text(seq![t]) == token_text(t),
{
    assert(seq![t].drop_last() =~= Seq::<Token>::empty());
    assert(tokens_text(seq![t].drop_last()) =~= Seq::<u8>::empty());
    assert(seq![t].last() == t);
    assert(tokens_text(seq![t]) =~= token_text(t));
}

/// Where the matcher sends what it finds: literal bytes and matches, in the
/// order of the input.
pub trait TokenSink: Sized {
    /// `self` is what `before` becomes when it takes `tokens`, in order.
    spec fn received(&self, before: &Self, tokens: Seq<Token>) -> bool;

    /// A sink that has taken nothing is unchanged.
    proof fn lemma_received_none(&self)
        ensures
            self.received(self, Seq::empty()),
    ;

    /// What a sink takes adds up: `first` and then `t` is `first.push(t)`.
    proof fn lemma_received_more(
        &self,
        mid: &Self,
        before: &Self,
        first: Seq<Token>,
        t: Token,
    )
        requires
            mid.received(before, first),
            self.received(mid, seq![t]),
        ensures
            self.received(before, first.push(t)),
    ;

    /// Takes one literal byte.
    fn emit_literal(&mut self, byte: u8)
        ensures
            final(self).received(old(self), seq![Token::Literal(byte)]),
    ;

    /// Takes one match of `length` bytes at `distance` bytes back.
    fn emit_match(&mut self, length: usize, distance: usize)
        requires
            3 <= length <= 258,
            1 <= distance <= 32768,
        ensures
            final(self).received(
                old(self),
                seq![Token::Match { length: length as int, distance: distance as int }],
            ),
    ;
}

/// The decimal digits of `n` as text.
fn decimal_text(n: usize) -> (text: Vec<u8>)
    ensures
        text@ == decimal_digits(n as nat),
{
    let mut low: Vec<u8> = Vec::new();
    let mut m: usize = n;
    while m >= 10
        invariant
            decimal_digits(n as nat) == decimal_digits(m as nat) + low@.reverse(),
        decreases m,
    {
        let digit: u8 = 48 + (m % 10) as u8;
        proof {
            assert(decimal_digits(m as nat) == decimal_digits((m / 10) as nat).push(digit));
            assert(decimal_digits((m / 10) as nat).push(digit) + low@.reverse()
                =~= decimal_digits((m / 10) as nat) + low@.push(digit).reverse());
        }
        low.push(digit);
        m = m / 10;
    }
    let mut text: Vec<u8> = Vec::new();
    text.push(48 + m as u8);
    let mut k: usize = low.len();
    while k > 0
        invariant
            k <= low.len(),
            text@ == decimal_digits(m as nat) + low@.reverse().take(low.len() - k),
        decreases k,
    {
        k = k - 1;
        text.push(low[k]);
        assert(text@ =~= decimal_digits(m as nat) + low@.reverse().take(low.len() - k));
    }
    assert(low@.reverse().take(low.len() as int) =~= low@.reverse());
    text
}

/// A sink that keeps what it takes as text: a literal as its byte, a match as
/// `<length,distance>`.
pub struct OutputBuffer {
    buffer: Vec<u8>,
}

impl OutputBuffer {
    /// The text taken so far.
    pub closed spec fn text(&self) -> Seq<u8> {
        self.buffer@
    }

    /// An empty buffer.
    pub fn new() -> (out: Self)
        ensures
            out.text() == Seq::<u8>::empty(),
    {
        OutputBuffer { buffer: Vec::new() }
    }

    /// Appends a literal byte.
    pub fn append_literal(&mut self, literal: u8)
        ensures
            final(self).text() == old(self).text().push(literal),
    {
        self.buffer.push(literal);
    }

    /// Appends a match as `<length,distance>`, both numbers in decimal.
    pub fn append_pair(&mut self, length: usize, distance: usize)
        ensures
            final(self).text() == old(self).text() + pair_text(length as nat, distance as nat),
    {
        let length_text = decimal_text(length);
        let distance_text = decimal_text(distance);
        self.buffer.push(60);
        self.append_all(&length_text);
        self.buffer.push(44);
        self.append_all(&distance_text);
        self.buffer.push(62);
        assert(self.buffer@ =~= old(self).buffer@ + pair_text(length as nat, distance as nat));
    }

    /// Appends the bytes of `text`.
    fn append_all(&mut self, text: &Vec<u8>)
        ensures
            final(self).text() == old(self).text() + text@,
    {
        let mut k: usize = 0;
        while k < text.len()
            invariant
                k <= text.len(),
                self.buffer@ == old(self).buffer@ + text@.take(k as int),
            decreases text.len() - k,
        {
            self.buffer.push(text[k]);
            k = k + 1;
            assert(self.buffer@ =~= old(self).buffer@ + text@.take(k as int));
        }
        assert(text@.take(text.len() as int) =~= text@);
    }

    /// The text taken so far.
    pub fn contents(&self) -> (text: &Vec<u8>)
        ensures
            text@ == self.text(),
    {
        &self.buffer
    }
}

impl TokenSink for OutputBuffer {
    open spec fn received(&self, before: &Self, tokens: Seq<Token>) -> bool {
        self.text() == before.text() + tokens_text(tokens)
    }

    proof fn lemma_received_none(&self) {
        assert(self.text() =~= self.text() + tokens_text(Seq::empty()));
    }

    proof fn lemma_received_more(
        &self,
        mid: &Self,
        before: &Self,
        first: Seq<Token>,
        t: Token,
    ) {
        assert(first.push(t).drop_last() =~= first);
        lemma_tokens_text_one(t);
        assert(self.text() =~= before.text() + tokens_text(first.push(t)));
    }

    fn emit_literal(&mut self, byte: u8) {
        self.append_literal(byte);
        proof {
            let t = Token::Literal(byte);
            lemma_tokens_text_one(t);
            assert(self.text() =~= old(self).text() + tokens_text(seq![t]));
        }
    }

    fn emit_match(&mut self, length: usize, distance: usize) {
        self.append_pair(length, distance);
        proof {
            let t = Token::Match { length: length as int, distance: distance as int };
            lemma_tokens_text_one(t);
        }
    }
}


/// Keeping from a floor and then from a higher one keeps from the higher one.
pub proof fn lemma_keep_from_twice(list: Seq<usize>, low: int, high: int)
    requires
        low <= high,
    ensures
        keep_from(keep_from(list, low), high) == keep_from(list, high),
    decreases list.len(),
{
    if list.len() > 0 {
        lemma_keep_from_twice(list.drop_last(), low, high);
        if list.last() >= low {
            assert(keep_from(list, low).drop_last() =~= keep_from(list.drop_last(), low));
        }
    }
}

/// What is kept of a list's first `t` entries opens what is kept of the list,
/// and an entry at or above the floor is the next one kept.
pub proof fn lemma_keep_from_prefix(list: Seq<usize>, floor: int, t: int)
    requires
        0 <= t <= list.len(),
    ensures
        keep_from(list.take(t), floor).len() <= keep_from(list, floor).len(),
        keep_from(list.take(t), floor) == keep_from(list, floor).take(
            keep_from(list.take(t), floor).len() as int,
        ),
        t == list.len() ==> keep_from(list.take(t), floor) == keep_from(list, floor),
    decreases list.len() - t,
{
    if t == list.len() {
        assert(list.take(t) =~= list);
        assert(keep_from(list, floor).take(keep_from(list, floor).len() as int) =~= keep_from(
            list,
            floor,
        ));
    } else {
        lemma_keep_from_prefix(list, floor, t + 1);
        assert(list.take(t + 1).drop_last() =~= list.take(t));
        let longer = keep_from(list.take(t + 1), floor);
        let shorter = keep_from(list.take(t), floor);
        assert(shorter =~= keep_from(list, floor).take(shorter.len() as int));
    }
}

/// Every entry kept is an entry of the list, at or above the floor.
pub proof fn lemma_keep_from_member(list: Seq<usize>, floor: int, t: int)
    requires
        0 <= t < keep_from(list, floor).len(),
    ensures
        list.contains(keep_from(list, floor)[t]),
        keep_from(list, floor)[t] >= floor,
    decreases list.len(),
{
    if list.len() > 0 {
        let rest = list.drop_last();
        if list.last() >= floor && t == keep_from(rest, floor).len() {
            assert(list[list.len() - 1] == list.last());
        } else {
            lemma_keep_from_member(rest, floor, t);
            let v = keep_from(rest, floor)[t];
            let u = choose|u: int| 0 <= u < rest.len() && rest[u] == v;
            assert(list[u] == v);
        }
    }
}

/// Every position found for a key is a position of the log, and holds the key.
pub proof fn lemma_with_key_member(input: Seq<u8>, log: Seq<usize>, key: u32, t: int)
    requires
        0 <= t < with_key(input, log, key).len(),
    ensures
        log.contains(with_key(input, log, key)[t]),
        key_at(input, with_key(input, log, key)[t] as int) == key,
    decreases log.len(),
{
    if log.len() > 0 {
        let rest = log.drop_last();
        if key_at(input, log.last() as int) == key && t == with_key(input, rest, key).len() {
            assert(log[log.len() - 1] == log.last());
        } else {
            lemma_with_key_member(input, rest, key, t);
            let v = with_key(input, rest, key)[t];
            let u = choose|u: int| 0 <= u < rest.len() && rest[u] == v;
            assert(log[u] == v);
        }
    }
}

/// Recording a position at or above the floor adds it to the candidates of
/// its key, and to those of no other key.
pub proof fn lemma_index_push(input: Seq<u8>, log: Seq<usize>, floor: int, p: usize, key: u32)
    requires
        p >= floor,
    ensures
        keep_from(with_key(input, log.push(p), key), floor) == if key_at(input, p as int) == key {
            keep_from(with_key(input, log, key), floor).push(p)
        } else {
            keep_from(with_key(input, log, key), floor)
        },
{
    assert(log.push(p).drop_last() =~= log);
    if key_at(input, p as int) == key {
        let found = with_key(input, log, key);
        assert(found.push(p).drop_last() =~= found);
    }
}

/// A match is at least three bytes long and at most as long as the lookahead
/// allows, stays within the input, and repeats the bytes at its position.
pub proof fn lemma_match_extent(input: Seq<u8>, p: int, i: int, j: int, lookahead: int)
    requires
        0 <= p,
        0 <= j,
        i + j <= input.len(),
    ensures
        j <= match_extent(input, p, i, j, lookahead),
        i + match_extent(input, p, i, j, lookahead) <= input.len(),
        match_extent(input, p, i, j, lookahead) <= (if lookahead > j {
            lookahead
        } else {
            j
        }),
        forall|k: int|
            j <= k < match_extent(input, p, i, j, lookahead) ==> #[trigger] same_byte(
                input,
                p,
                i,
                k,
            ),
    decreases input.len() - i - j,
{
    if i + j < input.len() && j < lookahead && input[i + j] == input[p + j] {
        lemma_match_extent(input, p, i, j + 1, lookahead);
    }
}

/// The best match among candidates is the match at one of them; it is at
/// least three bytes long where there is a candidate.
pub proof fn lemma_best_match(input: Seq<u8>, cands: Seq<usize>, i: int, lookahead: int)
    requires
        cands.len() > 0,
        i + 3 <= input.len(),
    ensures
        cands.contains(best_match(input, cands, i, lookahead).1 as usize),
        best_match(input, cands, i, lookahead).1 as usize == best_match(
            input,
            cands,
            i,
            lookahead,
        ).1,
        best_match(input, cands, i, lookahead).0 == match_extent(
            input,
            best_match(input, cands, i, lookahead).1,
            i,
            3,
            lookahead,
        ),
        3 <= best_match(input, cands, i, lookahead).0,
    decreases cands.len(),
{
    let rest = cands.drop_last();
    let p = cands.last() as int;
    let len = match_extent(input, p, i, 3, lookahead);
    let before = best_match(input, rest, i, lookahead);
    let best = best_match(input, cands, i, lookahead);
    lemma_match_extent(input, p, i, 3, lookahead);
    assert(best == if len >= before.0 {
        (len, p)
    } else {
        before
    });
    if rest.len() > 0 {
        lemma_best_match(input, rest, i, lookahead);
    }
    if len >= before.0 {
        assert(cands[cands.len() - 1] == best.1 as usize);
    } else {
        assert(rest.len() > 0);
        let u = choose|u: int| 0 <= u < rest.len() && rest[u] == before.1 as usize;
        assert(cands[u] == best.1 as usize);
    }
}

/// The best match is as long as the match at any candidate.
pub proof fn lemma_best_match_longest(
    input: Seq<u8>,
    cands: Seq<usize>,
    i: int,
    lookahead: int,
    u: int,
)
    requires
        0 <= u < cands.len(),
    ensures
        match_extent(input, cands[u] as int, i, 3, lookahead) <= best_match(
            input,
            cands,
            i,
            lookahead,
        ).0,
    decreases cands.len(),
{
    if u < cands.len() - 1 {
        lemma_best_match_longest(input, cands.drop_last(), i, lookahead, u);
    }
}

/// The key of three bytes.
fn key_of_bytes(b0: u8, b1: u8, b2: u8) -> (key: u32)
    ensures
        key == key_of(b0, b1, b2),
{
    b0 as u32 + 256 * (b1 as u32) + 65536 * (b2 as u32)
}

/// The matcher, with its index: for each key of three bytes the positions
/// recorded for it, in the order in which they were recorded. A position below
/// the floor of the window is no part of the index.
pub struct LZ77 {
    window_size: usize,
    lookahead_size: usize,
    hash_table: HashMap<u32, Vec<usize>>,
    floor: usize,
}

impl LZ77 {
    /// The number of bytes that a match can reach back.
    pub closed spec fn window(&self) -> usize {
        self.window_size
    }

    /// The length up to which a match is followed.
    pub closed spec fn lookahead(&self) -> usize {
        self.lookahead_size
    }

    /// The floor of the window: the index holds no position below it.
    pub closed spec fn floor(&self) -> usize {
        self.floor
    }

    /// The positions that the table keeps for `key`: those of the index, and
    /// among them such below the floor as have not been taken out yet.
    closed spec fn stored(&self, key: u32) -> Seq<usize> {
        if self.hash_table@.contains_key(key) {
            self.hash_table@[key]@
        } else {
            Seq::empty()
        }
    }

    /// The positions that the index holds for `key`, in the order in which
    /// they were recorded.
    pub closed spec fn candidates(&self, key: u32) -> Seq<usize> {
        keep_from(self.stored(key), self.floor as int)
    }

    /// A matcher with an empty index.
    pub fn new(window_size: usize, lookahead_size: usize) -> (matcher: Self)
        ensures
            matcher.window() == window_size,
            matcher.lookahead() == lookahead_size,
            matcher.floor() == 0,
            forall|key: u32| #[trigger] matcher.candidates(key) == Seq::<usize>::empty(),
    {
        LZ77 { window_size, lookahead_size, hash_table: HashMap::new(), floor: 0 }
    }

    /// Records `position` for the key `key`, unless it is below the floor.
    fn record(&mut self, key: u32, position: usize)
        ensures
            final(self).window() == old(self).window(),
            final(self).lookahead() == old(self).lookahead(),
            final(self).floor() == old(self).floor(),
            forall|k: u32| #[trigger]
                final(self).candidates(k) == if k == key && position >= old(self).floor() {
                    old(self).candidates(k).push(position)
                } else {
                    old(self).candidates(k)
                },
    {
        if position < self.floor {
            return ;
        }
        let found = self.hash_table.remove(&key);
        let mut list: Vec<usize> = match found {
            Some(list) => list,
            None => Vec::new(),
        };
        let ghost before = list@;
        list.push(position);
        self.hash_table.insert(key, list);
        proof {
            assert(self.hash_table@[key]@.drop_last() =~= before);
            assert(self.candidates(key) == keep_from(before, self.floor as int).push(position));
            assert(old(self).candidates(key) == keep_from(before, self.floor as int));
            assert forall|k: u32| k != key implies #[trigger] self.candidates(k) == old(
                self,
            ).candidates(k) by {
                assert(self.hash_table@.contains_key(k) == old(self).hash_table@.contains_key(k));
            }
        }
    }

    /// Records `position` for the three bytes of `key`. A position below the
    /// floor of the window is not recorded.
    pub fn add_to_hash(&mut self, key: &[u8], position: usize)
        requires
            key@.len() == 3,
        ensures
            final(self).window() == old(self).window(),
            final(self).lookahead() == old(self).lookahead(),
            final(self).floor() == old(self).floor(),
            forall|k: u32| #[trigger]
                final(self).candidates(k) == if k == key_of(key@[0], key@[1], key@[2]) && position
                    >= old(self).floor() {
                    old(self).candidates(k).push(position)
                } else {
                    old(self).candidates(k)
                },
    {
        let k = key_of_bytes(key[0], key[1], key[2]);
        self.record(k, position);
    }

    /// Moves the window to `cur_position`: the floor rises to `cur_position`
    /// less the window size, where that is above it, and the positions below
    /// the floor leave the index.
    pub fn update_hash(&mut self, cur_position: usize)
        ensures
            final(self).window() == old(self).window(),
            final(self).lookahead() == old(self).lookahead(),
            final(self).floor() == if window_floor(
                cur_position as int,
                old(self).window() as int,
            ) > old(self).floor() {
                window_floor(cur_position as int, old(self).window() as int)
            } else {
                old(self).floor() as int
            },
            forall|k: u32| #[trigger]
                final(self).candidates(k) == keep_from(
                    old(self).candidates(k),
                    final(self).floor() as int,
                ),
    {
        let window_start: usize = if cur_position > self.window_size {
            cur_position - self.window_size
        } else {
            0
        };
        let ghost low = self.floor as int;
        if window_start > self.floor {
            self.floor = window_start;
        }
        proof {
            assert forall|k: u32| #[trigger]
                self.candidates(k) == keep_from(old(self).candidates(k), self.floor as int) by {
                if self.hash_table@.contains_key(k) {
                    lemma_keep_from_twice(self.hash_table@[k]@, low, self.floor as int);
                }
            }
        }
    }

    /// Where the first position that the table keeps for `key` is below the
    /// floor, takes the positions below the floor out of the list, and the
    /// key out of the table if none is left. The index stays what it is: it
    /// holds no position below the floor.
    fn drop_stale(&mut self, key: u32)
        ensures
            final(self).window() == old(self).window(),
            final(self).lookahead() == old(self).lookahead(),
            final(self).floor() == old(self).floor(),
            forall|k: u32| #[trigger] final(self).candidates(k) == old(self).candidates(k),
            forall|k: u32|
                #[trigger] final(self).stored(k) == if k == key && old(self).stored(k).len() > 0
                    && old(self).stored(k)[0] < old(self).floor() {
                    old(self).candidates(k)
                } else {
                    old(self).stored(k)
                },
    {
        let stale = match self.hash_table.get(&key) {
            Some(list) => list.len() > 0 && list[0] < self.floor,
            None => false,
        };
        if !stale {
            return ;
        }
        let found = self.hash_table.remove(&key);
        match found {
            None => {},
            Some(list) => {
                let mut kept: Vec<usize> = Vec::new();
                let mut t: usize = 0;
                proof {
                    assert(list@.take(0) =~= Seq::<usize>::empty());
                }
                while t < list.len()
                    invariant
                        t <= list.len(),
                        kept@ == keep_from(list@.take(t as int), self.floor as int),
                    decreases list.len() - t,
                {
                    proof {
                        assert(list@.take(t + 1).drop_last() =~= list@.take(t as int));
                    }
                    if list[t] >= self.floor {
                        kept.push(list[t]);
                    }
                    t = t + 1;
                }
                proof {
                    assert(list@.take(list@.len() as int) =~= list@);
                    lemma_keep_from_twice(list@, self.floor as int, self.floor as int);
                }
                if kept.len() > 0 {
                    self.hash_table.insert(key, kept);
                }
                proof {
                    assert(self.candidates(key) == old(self).candidates(key));
                    assert forall|k: u32| k != key implies #[trigger] self.candidates(k) == old(
                        self,
                    ).candidates(k) by {
                        assert(self.hash_table@.contains_key(k) == old(
                            self,
                        ).hash_table@.contains_key(k));
                    }
                }
            },
        }
    }

    /// The longest match at `i` among the candidates for `key`, as its length
    /// and its position, or `(0, 0)` where there is no candidate.
    fn find_longest_match(&self, input: &[u8], i: usize, key: u32) -> (best: (usize, usize))
        requires
            i + 3 <= input@.len(),
            forall|t: int|
                0 <= t < self.candidates(key).len() ==> (#[trigger] self.candidates(key)[t]) < i,
        ensures
            best.0 == best_match(input@, self.candidates(key), i as int, self.lookahead() as int).0,
            best.1 == best_match(input@, self.candidates(key), i as int, self.lookahead() as int).1,
    {
        let n = input.len();
        let mut best_len: usize = 0;
        let mut best_pos: usize = 0;
        match self.hash_table.get(&key) {
            None => {},
            Some(list) => {
                let ghost cands = self.candidates(key);
                let mut t: usize = 0;
                proof {
                    assert(list@.take(0) =~= Seq::<usize>::empty());
                }
                while t < list.len()
                    invariant
                        t <= list.len(),
                        n == input@.len(),
                        i + 3 <= n,
                        cands == keep_from(list@, self.floor as int),
                        forall|u: int| 0 <= u < cands.len() ==> (#[trigger] cands[u]) < i,
                        best_len == best_match(
                            input@,
                            keep_from(list@.take(t as int), self.floor as int),
                            i as int,
                            self.lookahead_size as int,
                        ).0,
                        best_pos == best_match(
                            input@,
                            keep_from(list@.take(t as int), self.floor as int),
                            i as int,
                            self.lookahead_size as int,
                        ).1,
                    decreases list.len() - t,
                {
                    let p = list[t];
                    let ghost seen = keep_from(list@.take(t as int), self.floor as int);
                    proof {
                        assert(list@.take(t + 1).drop_last() =~= list@.take(t as int));
                        lemma_keep_from_prefix(list@, self.floor as int, t + 1);
                    }
                    if p >= self.floor {
                        proof {
                            let now = keep_from(list@.take(t + 1), self.floor as int);
                            assert(now == seen.push(p));
                            assert(cands[seen.len() as int] == now[seen.len() as int]);
                            assert(p < i);
                        }
                        let mut j: usize = 3;
                        while i + j < n && j < self.lookahead_size && input[i + j] == input[p + j]
                            invariant
                                3 <= j,
                                i + j <= n,
                                p < i,
                                n == input@.len(),
                                match_extent(
                                    input@,
                                    p as int,
                                    i as int,
                                    3,
                                    self.lookahead_size as int,
                                ) == match_extent(
                                    input@,
                                    p as int,
                                    i as int,
                                    j as int,
                                    self.lookahead_size as int,
                                ),
                            decreases n - i - j,
                        {
                            j = j + 1;
                        }
                        proof {
                            let now = keep_from(list@.take(t + 1), self.floor as int);
                            assert(now.drop_last() =~= seen);
                            assert(now.last() == p);
                            assert(match_extent(
                                input@,
                                p as int,
                                i as int,
                                3,
                                self.lookahead_size as int,
                            ) == j);
                        }
                        if j >= best_len {
                            best_len = j;
                            best_pos = p;
                        }
                    } else {
                        assert(keep_from(list@.take(t + 1), self.floor as int) == seen);
                    }
                    t = t + 1;
                }
                proof {
                    lemma_keep_from_prefix(list@, self.floor as int, list@.len() as int);
                }
            },
        }
        (best_len, best_pos)
    }

    /// Walks `input` from its start with an empty index and hands the sink,
    /// position by position, a literal or the longest match within the window.
    pub fn compress<S: TokenSink>(&mut self, input: &[u8], sink: &mut S)
        requires
            old(self).window() <= 32768,
            old(self).lookahead() <= 258,
        ensures
            final(sink).received(
                old(sink),
                matcher_tokens(input@, old(self).window() as int, old(self).lookahead() as int),
            ),
            final(self).window() == old(self).window(),
            final(self).lookahead() == old(self).lookahead(),
            final(self).floor() == matcher_run(
                input@,
                old(self).window() as int,
                old(self).lookahead() as int,
            ).floor,
            forall|k: u32| #[trigger]
                final(self).candidates(k) == keep_from(
                    with_key(
                        input@,
                        matcher_run(
                            input@,
                            old(self).window() as int,
                            old(self).lookahead() as int,
                        ).log,
                        k,
                    ),
                    final(self).floor() as int,
                ),
    {
        let ghost start = *sink;
        let ghost window = self.window_size as int;
        let ghost lookahead = self.lookahead_size as int;
        let ghost mut run = MatcherRun { tokens: Seq::empty(), log: Seq::empty(), floor: 0 };
        self.hash_table.clear();
        self.floor = 0;
        let n = input.len();
        let mut i: usize = 0;
        proof {
            sink.lemma_received_none();
        }
        while i < n
            invariant
                i <= n,
                n == input@.len(),
                window == self.window_size <= 32768,
                lookahead == self.lookahead_size <= 258,
                matcher_run(input@, window, lookahead) == run_from(
                    input@,
                    window,
                    lookahead,
                    i as int,
                    run,
                ),
                sink.received(&start, run.tokens),
                self.floor == run.floor,
                run.floor <= window_floor(i as int, window),
                forall|k: u32| #[trigger]
                    self.candidates(k) == keep_from(with_key(input@, run.log, k), run.floor),
                forall|t: int|
                    0 <= t < run.log.len() ==> (#[trigger] run.log[t]) < i && run.log[t] + 3 <= n,
            decreases n - i,
        {
            let ghost mid = *sink;
            let ghost token = token_at(input@, window, lookahead, i as int, run.log);
            if n - i < 3 {
                sink.emit_literal(input[i]);
                proof {
                    sink.lemma_received_more(&mid, &start, run.tokens, token);
                    assert(run.log + position_run(i as int, 0) =~= run.log);
                    run = MatcherRun {
                        tokens: run.tokens.push(token),
                        log: run.log,
                        floor: run.floor,
                    };
                }
                i = i + 1;
            } else {
                let key = key_of_bytes(input[i], input[i + 1], input[i + 2]);
                if i > self.window_size {
                    self.update_hash(i);
                    self.drop_stale(key);
                }
                let ghost floor = window_floor(i as int, window);
                let ghost cands = candidates_at(input@, window, i as int, run.log);
                proof {
                    assert(self.floor == floor);
                    assert forall|k: u32| #[trigger]
                        self.candidates(k) == keep_from(with_key(input@, run.log, k), floor) by {
                        lemma_keep_from_twice(with_key(input@, run.log, k), run.floor, floor);
                    }
                    assert(self.candidates(key) == cands);
                    assert forall|t: int| 0 <= t < cands.len() implies (#[trigger] cands[t]) < i
                        && cands[t] >= floor && key_at(input@, cands[t] as int) == key by {
                        let found = with_key(input@, run.log, key);
                        lemma_keep_from_member(found, floor, t);
                        let u = choose|u: int| 0 <= u < found.len() && found[u] == cands[t];
                        lemma_with_key_member(input@, run.log, key, u);
                        let v = choose|v: int| 0 <= v < run.log.len() && run.log[v] == cands[t];
                        assert(run.log[v] < i);
                    }
                }
                let (length, position) = self.find_longest_match(input, i, key);
                if length == 0 {
                    proof {
                        if cands.len() > 0 {
                            lemma_best_match(input@, cands, i as int, lookahead);
                        }
                        assert(token == Token::Literal(input@[i as int]));
                    }
                    sink.emit_literal(input[i]);
                    self.record(key, i);
                    proof {
                        sink.lemma_received_more(&mid, &start, run.tokens, token);
                        let log = run.log.push(i);
                        assert(run.log + position_run(i as int, 1) =~= log);
                        assert forall|k: u32| #[trigger]
                            self.candidates(k) == keep_from(with_key(input@, log, k), floor) by {
                            lemma_index_push(input@, run.log, floor, i, k);
                        }
                        run = MatcherRun { tokens: run.tokens.push(token), log, floor };
                    }
                    i = i + 1;
                } else {
                    proof {
                        lemma_best_match(input@, cands, i as int, lookahead);
                        lemma_match_extent(input@, position as int, i as int, 3, lookahead);
                        let u = choose|u: int| 0 <= u < cands.len() && cands[u] == position;
                        assert(cands[u] < i);
                        assert(token == Token::Match {
                            length: length as int,
                            distance: i - position,
                        });
                    }
                    sink.emit_match(length, i - position);
                    let ghost base = run.log;
                    let ghost count = recorded_count(input@, i as int, token);
                    let mut k: usize = i;
                    proof {
                        assert(base + position_run(i as int, 0) =~= base);
                    }
                    while k < i + length - 1 && n - k >= 3
                        invariant
                            i <= k <= i + length - 1,
                            k <= n - 2,
                            i + length <= n,
                            length >= 3,
                            n == input@.len(),
                            self.window_size == window,
                            self.lookahead_size == lookahead,
                            self.floor == floor <= i,
                            count == if i + length - 1 <= n - 2 {
                                length - 1
                            } else {
                                n - 2 - i
                            },
                            forall|q: u32| #[trigger]
                                self.candidates(q) == keep_from(
                                    with_key(input@, base + position_run(i as int, k - i), q),
                                    floor,
                                ),
                        decreases n - k,
                    {
                        let here = key_of_bytes(input[k], input[k + 1], input[k + 2]);
                        self.record(here, k);
                        proof {
                            let log = base + position_run(i as int, k - i);
                            let more = base + position_run(i as int, k + 1 - i);
                            assert(more =~= log.push(k));
                            assert forall|q: u32| #[trigger]
                                self.candidates(q) == keep_from(
                                    with_key(input@, more, q),
                                    floor,
                                ) by {
                                lemma_index_push(input@, log, floor, k, q);
                            }
                        }
                        k = k + 1;
                    }
                    proof {
                        sink.lemma_received_more(&mid, &start, run.tokens, token);
                        let log = base + position_run(i as int, count);
                        assert forall|t: int| 0 <= t < log.len() implies (#[trigger] log[t]) < i
                            + length && log[t] + 3 <= n by {
                            if t >= base.len() {
                                assert(log[t] == position_run(i as int, count)[t - base.len()]);
                            } else {
                                assert(log[t] == base[t]);
                            }
                        }
                        run = MatcherRun { tokens: run.tokens.push(token), log, floor };
                    }
                    i = i + length;
                }
            }
        }
    }
}

} // verus!
