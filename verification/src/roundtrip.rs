//! What is compressed can be read back: the tokens that the matcher finds
//! stand for its input, and the decoder turns the encoder's bits back into
//! those tokens.

use vstd::prelude::*;
use vstd::arithmetic::power2::pow2;
use crate::bits::bits_of_bytes;
use crate::bits::lsb_bits;
use crate::bits::lsb_value;
use crate::bits::msb_bits;
use crate::bits::pack_bits;
use crate::bits::lemma_bits_of_packed;
use crate::bits::lemma_msb_bits_prefix;
use crate::bits::lemma_pow2_values;
use crate::bits::lemma_value_of_bits;
use crate::codes::apply_token;
use crate::codes::apply_tokens;
use crate::codes::copy_back;
use crate::codes::distance_base;
use crate::codes::distance_bits;
use crate::codes::distance_extra_bits;
use crate::codes::distance_symbol;
use crate::codes::end_of_block_bits;
use crate::codes::fixed_block_bits;
use crate::codes::fixed_header_bits;
use crate::codes::length_base;
use crate::codes::length_bits;
use crate::codes::length_extra_bits;
use crate::codes::length_symbol;
use crate::codes::length_symbol_code;
use crate::codes::length_symbol_code_len;
use crate::codes::literal_code;
use crate::codes::literal_code_len;
use crate::codes::token_bits;
use crate::codes::token_valid;
use crate::codes::tokens_bits;
use crate::codes::tokens_reach;
use crate::codes::tokens_valid;
use crate::codes::lemma_distance_symbol;
use crate::codes::lemma_length_symbol;
use crate::codes::Token;
use crate::huffman::canonical_table;
use crate::huffman::code_lengths_fit;
use crate::huffman::code_of;
use crate::huffman::table_entry;
use crate::huffman::lemma_code_of_fits;
use crate::huffman::lemma_max_length;
use crate::huffman::lemma_no_code_is_a_prefix;
use crate::huffman::lemma_table_entry_has;
use crate::huffman::lemma_table_entry_of;
use crate::stream::table_symbol;
use crate::stream::table_symbol_from;
use crate::lz77::best_match;
use crate::lz77::candidates_at;
use crate::lz77::key_at;
use crate::lz77::matcher_tokens;
use crate::lz77::position_run;
use crate::lz77::recorded_count;
use crate::lz77::run_from;
use crate::lz77::same_byte;
use crate::lz77::token_at;
use crate::lz77::token_span;
use crate::lz77::window_floor;
use crate::lz77::with_key;
use crate::lz77::lemma_best_match;
use crate::lz77::lemma_keep_from_member;
use crate::lz77::lemma_match_extent;
use crate::lz77::lemma_with_key_member;
use crate::lz77::MatcherRun;
use crate::stream::bits_at;
use crate::stream::block_body;
use crate::stream::decoded;
use crate::stream::distance_symbol_at;
use crate::stream::field_at;
use crate::stream::fixed_conversion;
use crate::stream::fixed_symbol;
use crate::stream::fixed_symbol_from;
use crate::stream::match_at;
use crate::stream::match_distance_at;
use crate::stream::match_length_at;
use crate::stream::one_block;
use crate::stream::Coding;
use crate::stream::DecodeError;

verus! {

/// A copy from `p` to `i` of bytes that the input repeats there brings the
/// output from the first `i` bytes of the input to its first `i + length`.
pub proof fn lemma_copy_back_repeats(input: Seq<u8>, p: int, i: int, length: nat)
    requires
        0 <= p < i,
        i + length <= input.len(),
        forall|k: int| 0 <= k < length ==> #[trigger] same_byte(input, p, i, k),
    ensures
        copy_back(input.take(i), length, i - p) == input.take(i + length),
    decreases length,
{
    if length > 0 {
        let out = input.take(i);
        assert(same_byte(input, p, i, 0));
        assert(out.push(out[out.len() - (i - p)]) =~= input.take(i + 1));
        assert forall|k: int| 0 <= k < length - 1 implies #[trigger] same_byte(
            input,
            p + 1,
            i + 1,
            k,
        ) by {
            assert(same_byte(input, p, i, k + 1));
        }
        lemma_copy_back_repeats(input, p + 1, i + 1, (length - 1) as nat);
    }
}

/// The positions that the matcher has recorded are before `i` and have three
/// bytes of input at them.
pub open spec fn log_within(input: Seq<u8>, i: int, log: Seq<usize>) -> bool {
    forall|t: int| 0 <= t < log.len() ==> (#[trigger] log[t]) < i && log[t] + 3 <= input.len()
}

/// The tokens of a run that stands at `i` are such as the format can hold,
/// reach back no further than the output goes, and stand for the first `i`
/// bytes of the input.
pub open spec fn run_sound(input: Seq<u8>, i: int, run: MatcherRun) -> bool {
    &&& 0 <= i <= input.len()
    &&& tokens_valid(run.tokens)
    &&& tokens_reach(Seq::empty(), run.tokens)
    &&& apply_tokens(Seq::empty(), run.tokens) == input.take(i)
    &&& log_within(input, i, run.log)
}

/// The index holds what it should: a candidate at `i` is a position before
/// `i`, no further back than the window reaches, at which the input holds
/// the same three bytes as at `i`.
pub proof fn lemma_candidates_at(input: Seq<u8>, window: int, i: int, log: Seq<usize>, t: int)
    requires
        0 <= window,
        log_within(input, i, log),
        0 <= t < candidates_at(input, window, i, log).len(),
    ensures
        0 <= candidates_at(input, window, i, log)[t] < i,
        i - candidates_at(input, window, i, log)[t] <= window,
        key_at(input, candidates_at(input, window, i, log)[t] as int) == key_at(input, i),
{
    let key = key_at(input, i);
    let found = with_key(input, log, key);
    let cands = candidates_at(input, window, i, log);
    lemma_keep_from_member(found, window_floor(i, window), t);
    let v = choose|v: int| 0 <= v < found.len() && found[v] == cands[t];
    lemma_with_key_member(input, log, key, v);
    let w = choose|w: int| 0 <= w < log.len() && log[w] == found[v];
    assert(log[w] < i);
}

/// The token that the matcher finds at `i` covers at least one byte, stays
/// within the input, holds a length and a distance that the format allows,
/// and brings the output from the first `i` bytes of the input to the bytes
/// up to where the token ends.
pub proof fn lemma_token_at(input: Seq<u8>, window: int, lookahead: int, i: int, log: Seq<usize>)
    requires
        0 <= i < input.len(),
        0 <= window <= 32768,
        0 <= lookahead <= 258,
        log_within(input, i, log),
    ensures
        token_valid(token_at(input, window, lookahead, i, log)),
        1 <= token_span(token_at(input, window, lookahead, i, log)),
        i + token_span(token_at(input, window, lookahead, i, log)) <= input.len(),
        token_at(input, window, lookahead, i, log) matches Token::Match { length, distance } ==> 1
            <= distance <= i,
        apply_token(input.take(i), token_at(input, window, lookahead, i, log)) == input.take(
            i + token_span(token_at(input, window, lookahead, i, log)),
        ),
{
    let token = token_at(input, window, lookahead, i, log);
    let cands = candidates_at(input, window, i, log);
    if i + 3 > input.len() || cands.len() == 0 {
        assert(input.take(i).push(input[i]) =~= input.take(i + 1));
    } else {
        let best = best_match(input, cands, i, lookahead);
        lemma_best_match(input, cands, i, lookahead);
        let p = best.1;
        let u = choose|u: int| 0 <= u < cands.len() && cands[u] == p as usize;
        lemma_candidates_at(input, window, i, log, u);
        lemma_match_extent(input, p, i, 3, lookahead);
        let length = best.0;
        assert(3 <= length <= 258);
        assert(i + length <= input.len());
        assert(token == Token::Match { length, distance: i - p });
        assert forall|k: int| 0 <= k < length implies #[trigger] same_byte(input, p, i, k) by {
            if k < 3 {
                lemma_same_key(input, p, i);
            }
        }
        lemma_copy_back_repeats(input, p, i, length as nat);
    }
}

/// Where the keys at two positions are the same, so are the three bytes.
pub proof fn lemma_same_key(input: Seq<u8>, p: int, i: int)
    requires
        key_at(input, p) == key_at(input, i),
    ensures
        same_byte(input, p, i, 0),
        same_byte(input, p, i, 1),
        same_byte(input, p, i, 2),
{
    let a0 = input[p] as int;
    let a1 = input[p + 1] as int;
    let a2 = input[p + 2] as int;
    let b0 = input[i] as int;
    let b1 = input[i + 1] as int;
    let b2 = input[i + 2] as int;
    assert(a0 + 256 * a1 + 65536 * a2 == b0 + 256 * b1 + 65536 * b2);
}

/// From a sound state on, the matcher's run ends in tokens that the format
/// can hold, that reach back no further than the output goes, and that stand
/// for the whole input.
pub proof fn lemma_run_from_sound(
    input: Seq<u8>,
    window: int,
    lookahead: int,
    i: int,
    before: MatcherRun,
)
    requires
        run_sound(input, i, before),
        0 <= window <= 32768,
        0 <= lookahead <= 258,
    ensures
        tokens_valid(run_from(input, window, lookahead, i, before).tokens),
        tokens_reach(Seq::empty(), run_from(input, window, lookahead, i, before).tokens),
        apply_tokens(Seq::empty(), run_from(input, window, lookahead, i, before).tokens) == input,
    decreases input.len() - i,
{
    if i >= input.len() {
        assert(input.take(i) =~= input);
    } else {
        let t = token_at(input, window, lookahead, i, before.log);
        lemma_token_at(input, window, lookahead, i, before.log);
        let count = recorded_count(input, i, t);
        let log = before.log + position_run(i, count);
        let next = MatcherRun {
            tokens: before.tokens.push(t),
            log,
            floor: if i + 3 > input.len() {
                before.floor
            } else {
                window_floor(i, window)
            },
        };
        let span = token_span(t);
        assert(next.tokens.drop_last() =~= before.tokens);
        assert(next.tokens.last() == t);
        assert(tokens_valid(next.tokens)) by {
            assert forall|k: int| 0 <= k < next.tokens.len() implies token_valid(
                #[trigger] next.tokens[k],
            ) by {
                if k < before.tokens.len() {
                    assert(next.tokens[k] == before.tokens[k]);
                }
            }
        }
        assert(log_within(input, i + span, log)) by {
            assert forall|k: int| 0 <= k < log.len() implies (#[trigger] log[k]) < i + span
                && log[k] + 3 <= input.len() by {
                if k < before.log.len() {
                    assert(log[k] == before.log[k]);
                } else {
                    assert(log[k] == position_run(i, count)[k - before.log.len()]);
                }
            }
        }
        lemma_run_from_sound(input, window, lookahead, i + span, next);
    }
}

/// The tokens that the matcher finds are such as the format can hold, reach
/// back no further than the output goes, and stand for the input.
pub proof fn lemma_matcher_tokens(input: Seq<u8>, window: int, lookahead: int)
    requires
        0 <= window <= 32768,
        0 <= lookahead <= 258,
    ensures
        tokens_valid(matcher_tokens(input, window, lookahead)),
        tokens_reach(Seq::empty(), matcher_tokens(input, window, lookahead)),
        apply_tokens(Seq::empty(), matcher_tokens(input, window, lookahead)) == input,
{
    let start = MatcherRun { tokens: Seq::empty(), log: Seq::empty(), floor: 0 };
    assert(input.take(0) =~= Seq::<u8>::empty());
    lemma_run_from_sound(input, window, lookahead, 0, start);
}

/// The bits of `bits` from `pos` on start with `part`.
pub open spec fn holds_at(bits: Seq<bool>, pos: int, part: Seq<bool>) -> bool {
    0 <= pos && pos + part.len() <= bits.len() && bits_at(bits, pos, part.len() as int) == part
}

/// Where the bits at a position start with two parts, one after the other,
/// they start with the first, and behind it with the second.
pub proof fn lemma_holds_split(bits: Seq<bool>, pos: int, first: Seq<bool>, second: Seq<bool>)
    requires
        holds_at(bits, pos, first + second),
    ensures
        holds_at(bits, pos, first),
        holds_at(bits, pos + first.len(), second),
{
    let whole = bits_at(bits, pos, (first + second).len() as int);
    assert forall|k: int| 0 <= k < first.len() implies bits_at(bits, pos, first.len() as int)[k]
        == first[k] by {
        assert(whole[k] == (first + second)[k]);
    }
    assert(bits_at(bits, pos, first.len() as int) =~= first);
    assert forall|k: int| 0 <= k < second.len() implies bits_at(
        bits,
        pos + first.len(),
        second.len() as int,
    )[k] == second[k] by {
        assert(whole[first.len() + k] == (first + second)[first.len() + k]);
    }
    assert(bits_at(bits, pos + first.len(), second.len() as int) =~= second);
}

/// Of a code word of `n` bits at `pos`, most significant bit first, the first
/// `k` bits spell the code word without its last `n - k` bits.
pub proof fn lemma_prefix_value(bits: Seq<bool>, pos: int, code: nat, n: nat, k: nat)
    requires
        holds_at(bits, pos, msb_bits(code, n)),
        code < pow2(n),
        k <= n <= 16,
    ensures
        field_at(bits, pos, k as int, false) == code / pow2((n - k) as nat),
        k == n ==> field_at(bits, pos, k as int, false) == code,
{
    let d = pow2((n - k) as nat);
    let short = code / d;
    lemma_msb_bits_prefix(code, n, k);
    assert(bits_at(bits, pos, k as int) =~= bits_at(bits, pos, n as int).take(k as int));
    lemma_pow2_values(n);
    lemma_pow2_values(k);
    lemma_pow2_values((n - k) as nat);
    vstd::arithmetic::power2::lemma_pow2_adds((n - k) as nat, k);
    vstd::arithmetic::div_mod::lemma_fundamental_div_mod(code as int, d as int);
    assert(short < pow2(k)) by (nonlinear_arith)
        requires
            code == d * short + code % d,
            0 <= code % d,
            code < d * pow2(k),
            d > 0,
    ;
    lemma_value_of_bits(short, k);
}

/// A code word of the fixed Huffman code at `pos` is read as its symbol.
pub proof fn lemma_fixed_symbol_of_code(bits: Seq<bool>, pos: int, code: nat, n: nat)
    requires
        holds_at(bits, pos, msb_bits(code, n)),
        7 <= n <= 9,
        code < pow2(n),
        fixed_conversion(n as int, code as int) != 300,
    ensures
        fixed_symbol(bits, pos) == Ok::<(int, int), DecodeError>(
            (fixed_conversion(n as int, code as int), pos + n),
        ),
{
    lemma_pow2_values(0);
    lemma_pow2_values(1);
    lemma_pow2_values(2);
    lemma_pow2_values(n);
    lemma_prefix_value(bits, pos, code, n, 7);
    lemma_prefix_value(bits, pos, code, n, n);
    if n > 7 {
        lemma_prefix_value(bits, pos, code, n, 8);
    }
    let v7 = field_at(bits, pos, 7, false) as int;
    if n == 7 {
        assert(v7 == code);
    } else if n == 8 {
        assert(v7 == code / 2);
        assert(fixed_conversion(7, v7) == 300);
        assert(fixed_symbol_from(bits, pos, 7) == fixed_symbol_from(bits, pos, 8));
    } else {
        let v8 = field_at(bits, pos, 8, false) as int;
        assert(v7 == code / 4);
        assert(v8 == code / 2);
        assert(fixed_conversion(7, v7) == 300);
        assert(fixed_conversion(8, v8) == 300);
        assert(fixed_symbol_from(bits, pos, 7) == fixed_symbol_from(bits, pos, 8));
        assert(fixed_symbol_from(bits, pos, 8) == fixed_symbol_from(bits, pos, 9));
    }
}

/// The code of a symbol at `pos` is not taken for a shorter code: looked up
/// from `len` bits on, it is read as the symbol's name.
pub proof fn lemma_table_symbol_from_decodes(
    lengths: Seq<usize>,
    alphabets: Seq<usize>,
    bits: Seq<bool>,
    pos: int,
    s: int,
    len: int,
    limit: int,
)
    requires
        lengths.len() == alphabets.len(),
        code_lengths_fit(lengths),
        0 <= s < lengths.len(),
        1 <= len <= lengths[s] <= limit,
        holds_at(bits, pos, msb_bits(code_of(lengths, s), lengths[s] as nat)),
    ensures
        table_symbol_from(canonical_table(lengths, alphabets), bits, pos, len, limit) == Ok::<
            (int, int),
            DecodeError,
        >((alphabets[s] as u16 as int, pos + lengths[s])),
    decreases lengths[s] - len,
{
    let table = canonical_table(lengths, alphabets);
    let n = lengths[s] as int;
    let code = code_of(lengths, s);
    lemma_max_length(lengths);
    lemma_code_of_fits(lengths, s);
    lemma_prefix_value(bits, pos, code, n as nat, len as nat);
    lemma_pow2_values(len as nat);
    let seen = field_at(bits, pos, len, false);
    if len == n {
        lemma_table_entry_of(lengths, alphabets, lengths.len() as int, s);
    } else {
        assert(seen == code / pow2((n - len) as nat));
        crate::bits::lemma_msb_value_bound(bits_at(bits, pos, len));
        if len < table.len() && table[len].contains_key(seen as u16) {
            lemma_table_entry_has(lengths, alphabets, len, lengths.len() as int, seen as u16);
            let t = choose|t: int|
                0 <= t < lengths.len() && len != 0 && #[trigger] lengths[t] == len && code_of(
                    lengths,
                    t,
                ) as u16 == seen as u16 && table_entry(
                    lengths,
                    alphabets,
                    len,
                    lengths.len() as int,
                )[seen as u16] == alphabets[t] as u16;
            lemma_code_of_fits(lengths, t);
            lemma_no_code_is_a_prefix(lengths, s, t);
        }
        lemma_table_symbol_from_decodes(lengths, alphabets, bits, pos, s, len + 1, limit);
    }
}

/// Canonical codes are read back: where the code of a symbol stands at
/// `pos`, most significant bit first, the table built from the code lengths
/// gives the symbol's name and the position behind the code.
pub proof fn lemma_table_symbol_decodes(
    lengths: Seq<usize>,
    alphabets: Seq<usize>,
    bits: Seq<bool>,
    pos: int,
    s: int,
    limit: int,
)
    requires
        lengths.len() == alphabets.len(),
        code_lengths_fit(lengths),
        0 <= s < lengths.len(),
        1 <= lengths[s] <= limit,
        holds_at(bits, pos, msb_bits(code_of(lengths, s), lengths[s] as nat)),
    ensures
        table_symbol(canonical_table(lengths, alphabets), bits, pos, limit) == Ok::<
            (int, int),
            DecodeError,
        >((alphabets[s] as u16 as int, pos + lengths[s])),
{
    lemma_table_symbol_from_decodes(lengths, alphabets, bits, pos, s, 1, limit);
}

/// A field of `n` bits at `pos` that holds `v`, least significant bit first,
/// is read as `v`.
pub proof fn lemma_lsb_field(bits: Seq<bool>, pos: int, v: nat, n: nat)
    requires
        holds_at(bits, pos, lsb_bits(v, n)),
        v < pow2(n),
    ensures
        field_at(bits, pos, n as int, true) == v,
{
    lemma_value_of_bits(v, n);
}

/// The bits of a match at `pos` are read as the match: first the length
/// symbol, then the length and the distance.
pub proof fn lemma_match_decodes(bits: Seq<bool>, pos: int, length: int, distance: int)
    requires
        3 <= length <= 258,
        1 <= distance <= 32768,
        holds_at(bits, pos, length_bits(length) + distance_bits(distance)),
    ensures
        fixed_symbol(bits, pos) == Ok::<(int, int), DecodeError>(
            (length_symbol(length), pos + length_symbol_code_len(length_symbol(length))),
        ),
        match_at(
            Coding::Fixed,
            bits,
            pos + length_symbol_code_len(length_symbol(length)),
            length_symbol(length),
        ) == Ok::<(int, int, int), DecodeError>(
            (length, distance, pos + length_bits(length).len() + distance_bits(distance).len()),
        ),
{
    let symbol = length_symbol(length);
    let word = msb_bits(length_symbol_code(symbol), length_symbol_code_len(symbol));
    let extra = lsb_bits((length - length_base(symbol)) as nat, length_extra_bits(symbol));
    let code = distance_symbol(distance);
    let five = msb_bits(code as nat, 5);
    let far = lsb_bits((distance - distance_base(code)) as nat, distance_extra_bits(code));
    lemma_length_symbol(length);
    lemma_distance_symbol(distance);
    lemma_pow2_values(5);
    lemma_pow2_values(7);
    lemma_pow2_values(8);
    lemma_holds_split(bits, pos, length_bits(length), distance_bits(distance));
    lemma_holds_split(bits, pos, word, extra);
    lemma_holds_split(bits, pos + length_bits(length).len(), five, far);
    lemma_fixed_symbol_of_code(
        bits,
        pos,
        length_symbol_code(symbol),
        length_symbol_code_len(symbol),
    );
    let behind_symbol = pos + word.len();
    lemma_lsb_field(
        bits,
        behind_symbol,
        (length - length_base(symbol)) as nat,
        length_extra_bits(symbol),
    );
    let behind_length = behind_symbol + extra.len();
    assert(match_length_at(bits, behind_symbol, symbol) == Ok::<(int, int), DecodeError>(
        (length, behind_length),
    ));
    lemma_prefix_value(bits, behind_length, code as nat, 5, 5);
    assert(distance_symbol_at(Coding::Fixed, bits, behind_length) == Ok::<
        (int, int),
        DecodeError,
    >((code, behind_length + 5)));
    lemma_lsb_field(
        bits,
        behind_length + 5,
        (distance - distance_base(code)) as nat,
        distance_extra_bits(code),
    );
    assert(match_distance_at(bits, behind_length + 5, code) == Ok::<(int, int), DecodeError>(
        (distance, behind_length + 5 + far.len()),
    ));
}

/// The bits of a token at `pos` are read as the token: the decoder goes on
/// behind them with the output that the token makes.
pub proof fn lemma_token_decodes(bits: Seq<bool>, pos: int, out: Seq<u8>, t: Token)
    requires
        token_valid(t),
        holds_at(bits, pos, token_bits(t)),
        t matches Token::Match { length, distance } ==> distance <= out.len(),
    ensures
        token_bits(t).len() > 0,
        block_body(Coding::Fixed, bits, pos, out) == block_body(
            Coding::Fixed,
            bits,
            pos + token_bits(t).len(),
            apply_token(out, t),
        ),
{
    match t {
        Token::Literal(v) => {
            lemma_pow2_values(8);
            lemma_pow2_values(9);
            lemma_fixed_symbol_of_code(bits, pos, literal_code(v), literal_code_len(v));
        },
        Token::Match { length, distance } => {
            lemma_match_decodes(bits, pos, length, distance);
        },
    }
}

/// The bits of a run of tokens at `pos` are read as the tokens: the decoder
/// goes on behind them with the output that the tokens make.
pub proof fn lemma_tokens_decode(bits: Seq<bool>, pos: int, out: Seq<u8>, tokens: Seq<Token>)
    requires
        tokens_valid(tokens),
        tokens_reach(out, tokens),
        holds_at(bits, pos, tokens_bits(tokens)),
    ensures
        block_body(Coding::Fixed, bits, pos, out) == block_body(
            Coding::Fixed,
            bits,
            pos + tokens_bits(tokens).len(),
            apply_tokens(out, tokens),
        ),
    decreases tokens.len(),
{
    if tokens.len() > 0 {
        let first = tokens.drop_last();
        let t = tokens.last();
        assert(tokens_valid(first)) by {
            assert forall|k: int| 0 <= k < first.len() implies token_valid(#[trigger] first[k]) by {
                assert(first[k] == tokens[k]);
            }
        }
        assert(token_valid(tokens[tokens.len() - 1]));
        lemma_holds_split(bits, pos, tokens_bits(first), token_bits(t));
        lemma_tokens_decode(bits, pos, out, first);
        lemma_token_decodes(bits, pos + tokens_bits(first).len(), apply_tokens(out, first), t);
    }
}

/// The seven clear bits that end a block are read as the end of the block.
pub proof fn lemma_end_decodes(bits: Seq<bool>, pos: int, out: Seq<u8>)
    requires
        holds_at(bits, pos, end_of_block_bits()),
    ensures
        block_body(Coding::Fixed, bits, pos, out) == Ok::<(Seq<u8>, int), DecodeError>(
            (out, pos + 7),
        ),
{
    lemma_pow2_values(0);
    lemma_pow2_values(7);
    assert(end_of_block_bits() =~= msb_bits(0, 7)) by {
        assert forall|k: int| 0 <= k < 7 implies !msb_bits(0, 7)[k] by {
            crate::bits::lemma_bit_at_high(0, 0, (6 - k) as nat);
        }
    }
    lemma_fixed_symbol_of_code(bits, pos, 0, 7);
}

/// A stream that starts with one final fixed Huffman block of tokens
/// decodes to what the tokens stand for.
pub proof fn lemma_fixed_block_decodes(bits: Seq<bool>, tokens: Seq<Token>)
    requires
        tokens_valid(tokens),
        tokens_reach(Seq::empty(), tokens),
        holds_at(bits, 0, fixed_block_bits(tokens)),
    ensures
        decoded(bits) == Ok::<Seq<u8>, DecodeError>(apply_tokens(Seq::empty(), tokens)),
{
    reveal(one_block);
    let header = fixed_header_bits();
    let body = tokens_bits(tokens);
    let end = end_of_block_bits();
    let out = Seq::<u8>::empty();
    lemma_holds_split(bits, 0, header + body, end);
    lemma_holds_split(bits, 0, header, body);
    lemma_tokens_decode(bits, 3, out, tokens);
    lemma_end_decodes(bits, 3 + body.len() as int, apply_tokens(out, tokens));
    let kind_bits = bits_at(bits, 1, 2);
    assert(kind_bits =~= seq![true, false]) by {
        assert(bits_at(bits, 0, 3)[1] == header[1]);
        assert(bits_at(bits, 0, 3)[2] == header[2]);
    }
    assert(bits[0]) by {
        assert(bits_at(bits, 0, 3)[0] == header[0]);
    }
    assert(lsb_value(kind_bits) == 1) by {
        assert(kind_bits.skip(1) =~= seq![false]);
        crate::bits::lemma_value_of_one_bit(kind_bits.skip(1));
    }
    assert(field_at(bits, 1, 2, true) == 1);
}

/// Round trip: the stream that the encoder makes of `data` decodes to `data`.
pub proof fn lemma_round_trip(data: Seq<u8>)
    ensures
        decoded(bits_of_bytes(pack_bits(fixed_block_bits(matcher_tokens(data, 32768, 258)))))
            == Ok::<Seq<u8>, DecodeError>(data),
{
    let tokens = matcher_tokens(data, 32768, 258);
    let block = fixed_block_bits(tokens);
    let bits = bits_of_bytes(pack_bits(block));
    lemma_matcher_tokens(data, 32768, 258);
    lemma_bits_of_packed(block);
    assert(bits_at(bits, 0, block.len() as int) =~= block);
    lemma_fixed_block_decodes(bits, tokens);
}

} // verus!
