//! Canonical Huffman codes: from the code length of each symbol to the code
//! of each symbol, and to the tables that the decoder looks codes up in, one
//! for each code length.

use std::collections::HashMap;
use vstd::prelude::*;
use vstd::arithmetic::power2::pow2;
use vstd::arithmetic::power2::lemma_pow2_adds;
use vstd::arithmetic::power2::lemma_pow2_pos;
use vstd::arithmetic::power2::lemma_pow2_unfold;
use crate::bits::pow2_u32;
use crate::bits::lemma_pow2_values;

verus! {

broadcast use vstd::std_specs::hash::group_hash_axioms;

/// The largest of `lengths`, 0 where there is none.
pub open spec fn max_length(lengths: Seq<usize>) -> nat
    decreases lengths.len(),
{
    if lengths.len() == 0 {
        0
    } else if lengths.last() > max_length(lengths.drop_last()) {
        lengths.last() as nat
    } else {
        max_length(lengths.drop_last())
    }
}

/// The number of symbols below `upto` whose code length is `len`.
pub open spec fn count_len(lengths: Seq<usize>, len: int, upto: int) -> nat
    decreases upto,
{
    if upto <= 0 {
        0
    } else if lengths[upto - 1] == len {
        count_len(lengths, len, upto - 1) + 1
    } else {
        count_len(lengths, len, upto - 1)
    }
}

/// The number of symbols whose code length is `len`, none for length 0.
pub open spec fn bl_count(lengths: Seq<usize>, len: int) -> nat {
    if len <= 0 {
        0
    } else {
        count_len(lengths, len, lengths.len() as int)
    }
}

/// The smallest code of length `len`: 0 for length 1, and for each further
/// length twice the sum of the smallest code and the number of codes of the
/// length before.
pub open spec fn first_code(lengths: Seq<usize>, len: int) -> nat
    decreases len,
{
    if len <= 1 {
        0
    } else {
        2 * (first_code(lengths, len - 1) + bl_count(lengths, len - 1))
    }
}

/// The code of symbol `s`: the smallest code of its length, plus the number
/// of symbols before it that have the same length.
pub open spec fn code_of(lengths: Seq<usize>, s: int) -> nat {
    first_code(lengths, lengths[s] as int) + count_len(lengths, lengths[s] as int, s)
}

/// The share of the code space that the codes of length 1 to `len` take, in
/// units of `2^-15`.
pub open spec fn kraft_sum(lengths: Seq<usize>, len: int) -> nat
    decreases len,
{
    if len <= 0 {
        0
    } else {
        kraft_sum(lengths, len - 1) + bl_count(lengths, len) * pow2((15 - len) as nat)
    }
}

/// Every code length is 15 at most.
pub open spec fn lengths_bounded(lengths: Seq<usize>) -> bool {
    forall|s: int| 0 <= s < lengths.len() ==> #[trigger] lengths[s] <= 15
}

/// The code lengths fit a prefix code: each is 15 at most, and together the
/// codes take no more than the whole code space.
pub open spec fn code_lengths_fit(lengths: Seq<usize>) -> bool {
    lengths_bounded(lengths) && kraft_sum(lengths, 15) <= 32768
}

/// The number of symbols that have a code.
pub open spec fn coded_symbols(lengths: Seq<usize>) -> int {
    lengths.len() - count_len(lengths, 0, lengths.len() as int)
}

/// The code lengths make a tree that the decoder accepts: they fit a prefix
/// code, and where two or more symbols have a code the codes take the whole
/// code space.
pub open spec fn code_lengths_valid(lengths: Seq<usize>) -> bool {
    code_lengths_fit(lengths) && (coded_symbols(lengths) <= 1 || kraft_sum(lengths, 15) == 32768)
}

/// The codes of length `len` of the symbols below `upto`, each with the name
/// that `alphabets` gives its symbol.
pub open spec fn table_entry(
    lengths: Seq<usize>,
    alphabets: Seq<usize>,
    len: int,
    upto: int,
) -> Map<u16, u16>
    decreases upto,
{
    if upto <= 0 {
        Map::empty()
    } else if len != 0 && lengths[upto - 1] == len {
        table_entry(lengths, alphabets, len, upto - 1).insert(
            code_of(lengths, upto - 1) as u16,
            alphabets[upto - 1] as u16,
        )
    } else {
        table_entry(lengths, alphabets, len, upto - 1)
    }
}

/// The decoding table of a canonical Huffman code: for each code length from
/// 0 to the longest one, the codes of that length with their symbols. Symbol
/// `s` has the length `lengths[s]`, none where that is 0, and the name
/// `alphabets[s]`. No table at all where there is no symbol.
pub open spec fn canonical_table(lengths: Seq<usize>, alphabets: Seq<usize>) -> Seq<Map<u16, u16>> {
    Seq::new(
        if lengths.len() == 0 {
            0
        } else {
            max_length(lengths) + 1
        },
        |len: int| table_entry(lengths, alphabets, len, lengths.len() as int),
    )
}

/// What a table holds, as maps from code to symbol.
pub open spec fn table_view(table: Seq<HashMap<u16, u16>>) -> Seq<Map<u16, u16>> {
    Seq::new(table.len(), |len: int| table[len]@)
}

/// The code lengths that are not 0, in order.
pub open spec fn nonzero_lengths(lengths: Seq<usize>) -> Seq<usize>
    decreases lengths.len(),
{
    if lengths.len() == 0 {
        Seq::empty()
    } else if lengths.last() != 0 {
        nonzero_lengths(lengths.drop_last()).push(lengths.last())
    } else {
        nonzero_lengths(lengths.drop_last())
    }
}

/// The names in `alphabets` of the symbols whose code length is not 0, in order.
pub open spec fn nonzero_names(lengths: Seq<usize>, alphabets: Seq<usize>) -> Seq<usize>
    decreases lengths.len(),
{
    if lengths.len() == 0 {
        Seq::empty()
    } else if lengths.last() != 0 {
        nonzero_names(lengths.drop_last(), alphabets).push(alphabets[lengths.len() - 1])
    } else {
        nonzero_names(lengths.drop_last(), alphabets)
    }
}

/// The symbols whose code length is not 0, in order.
pub open spec fn nonzero_symbols(lengths: Seq<usize>) -> Seq<usize>
    decreases lengths.len(),
{
    if lengths.len() == 0 {
        Seq::empty()
    } else if lengths.last() != 0 {
        nonzero_symbols(lengths.drop_last()).push((lengths.len() - 1) as usize)
    } else {
        nonzero_symbols(lengths.drop_last())
    }
}

/// The symbols whose code length is not 0 are as many as those lengths.
pub proof fn lemma_nonzero_same_len(lengths: Seq<usize>)
    ensures
        nonzero_lengths(lengths).len() == nonzero_symbols(lengths).len(),
    decreases lengths.len(),
{
    if lengths.len() > 0 {
        lemma_nonzero_same_len(lengths.drop_last());
    }
}

/// The largest length is one of the lengths, and none is larger.
pub proof fn lemma_max_length(lengths: Seq<usize>)
    ensures
        forall|s: int| 0 <= s < lengths.len() ==> #[trigger] lengths[s] <= max_length(lengths),
        lengths.len() > 0 ==> lengths.contains(max_length(lengths) as usize),
    decreases lengths.len(),
{
    if lengths.len() > 0 {
        let rest = lengths.drop_last();
        lemma_max_length(rest);
        assert forall|s: int| 0 <= s < lengths.len() implies #[trigger] lengths[s] <= max_length(
            lengths,
        ) by {
            if s < rest.len() {
                assert(rest[s] == lengths[s]);
            }
        }
        if lengths.last() > max_length(rest) || rest.len() == 0 {
            assert(lengths[lengths.len() - 1] == lengths.last());
        } else {
            let u = choose|u: int| 0 <= u < rest.len() && rest[u] == max_length(rest) as usize;
            assert(lengths[u] == max_length(rest) as usize);
        }
    }
}

/// The count of a length grows with the symbols counted, by one at most for
/// each symbol.
pub proof fn lemma_count_len_grows(lengths: Seq<usize>, len: int, a: int, b: int)
    requires
        0 <= a <= b,
    ensures
        count_len(lengths, len, a) <= count_len(lengths, len, b) <= count_len(lengths, len, a) + (b
            - a),
        a < b && lengths[a] == len ==> count_len(lengths, len, a) < count_len(lengths, len, b),
    decreases b - a,
{
    if a < b {
        lemma_count_len_grows(lengths, len, a, b - 1);
    }
}

/// The share of the code space that codes up to a length take grows with the
/// length.
pub proof fn lemma_kraft_sum_grows(lengths: Seq<usize>, a: int, b: int)
    requires
        a <= b,
    ensures
        kraft_sum(lengths, a) <= kraft_sum(lengths, b),
    decreases b - a,
{
    if a < b {
        lemma_kraft_sum_grows(lengths, a, b - 1);
    }
}

/// Codes of one length ascend with their symbols.
pub proof fn lemma_codes_ascend(lengths: Seq<usize>, s: int, t: int)
    requires
        0 <= s < t < lengths.len(),
        lengths[s] == lengths[t],
    ensures
        code_of(lengths, s) < code_of(lengths, t),
{
    lemma_count_len_grows(lengths, lengths[s] as int, s, t);
}

/// The smallest code of a length, counted in units of the code space, starts
/// where the codes of the shorter lengths end.
pub proof fn lemma_first_code_scaled(lengths: Seq<usize>, len: int)
    requires
        1 <= len <= 15,
    ensures
        first_code(lengths, len) * pow2((15 - len) as nat) == kraft_sum(lengths, len - 1),
    decreases len,
{
    if len > 1 {
        lemma_first_code_scaled(lengths, len - 1);
        let f = first_code(lengths, len - 1);
        let c = bl_count(lengths, len - 1);
        let high = pow2((15 - (len - 1)) as nat);
        let low = pow2((15 - len) as nat);
        lemma_pow2_unfold((15 - (len - 1)) as nat);
        assert(high == 2 * low);
        assert((2 * (f + c)) * low == f * high + c * high) by (nonlinear_arith)
            requires
                high == 2 * low,
        ;
        assert(first_code(lengths, len) == 2 * (f + c));
        assert(kraft_sum(lengths, len - 1) == kraft_sum(lengths, len - 2) + c * high);
    } else {
        assert(first_code(lengths, len) == 0);
        assert(0 * pow2((15 - len) as nat) == 0) by (nonlinear_arith);
    }
}

/// Where the code lengths fit a prefix code, the codes of each length fit
/// into that many bits.
pub proof fn lemma_codes_fit(lengths: Seq<usize>, len: int)
    requires
        code_lengths_fit(lengths),
        1 <= len <= 15,
    ensures
        first_code(lengths, len) + bl_count(lengths, len) <= pow2(len as nat),
{
    let f = first_code(lengths, len);
    let c = bl_count(lengths, len);
    let unit = pow2((15 - len) as nat);
    lemma_first_code_scaled(lengths, len);
    lemma_kraft_sum_grows(lengths, len, 15);
    lemma_pow2_adds(len as nat, (15 - len) as nat);
    lemma_pow2_values(15);
    lemma_pow2_pos((15 - len) as nat);
    assert((f + c) * unit == f * unit + c * unit) by (nonlinear_arith);
    assert((f + c) * unit <= pow2(len as nat) * unit);
    assert(f + c <= pow2(len as nat)) by (nonlinear_arith)
        requires
            (f + c) * unit <= pow2(len as nat) * unit,
            unit > 0,
    ;
}

/// Where the code lengths fit a prefix code, the code of a symbol fits into
/// as many bits as its length says.
pub proof fn lemma_code_of_fits(lengths: Seq<usize>, s: int)
    requires
        code_lengths_fit(lengths),
        0 <= s < lengths.len(),
        lengths[s] != 0,
    ensures
        code_of(lengths, s) < pow2(lengths[s] as nat),
        code_of(lengths, s) < 32768,
{
    let len = lengths[s] as int;
    lemma_codes_fit(lengths, len);
    lemma_count_len_grows(lengths, len, s, lengths.len() as int);
    lemma_pow2_values(len as nat);
}

/// `name` is the symbol of a code of length `len` in `table`.
pub open spec fn named_at(table: Seq<Map<u16, u16>>, name: u16, len: int) -> bool {
    0 <= len < table.len() && exists|code: u16| #[trigger]
        table[len].contains_key(code) && table[len][code] == name
}

/// The length of the code that `table` holds for the symbol `name`, 0 where
/// it holds none.
pub open spec fn length_in_table(table: Seq<Map<u16, u16>>, name: u16) -> int {
    if exists|len: int| named_at(table, name, len) {
        choose|len: int| named_at(table, name, len)
    } else {
        0
    }
}

/// The code lengths that a table gives back for the symbols named by
/// `alphabets`.
pub open spec fn recovered_lengths(table: Seq<Map<u16, u16>>, alphabets: Seq<usize>) -> Seq<int> {
    Seq::new(alphabets.len(), |s: int| length_in_table(table, alphabets[s] as u16))
}

/// No two symbols have the same name.
pub open spec fn names_distinct(alphabets: Seq<usize>) -> bool {
    forall|s: int, t: int|
        0 <= s < t < alphabets.len() ==> #[trigger] alphabets[s] as u16
            != #[trigger] alphabets[t] as u16
}

/// A code in the table of a length is the code of a symbol of that length,
/// and is there with that symbol's name.
pub proof fn lemma_table_entry_has(
    lengths: Seq<usize>,
    alphabets: Seq<usize>,
    len: int,
    upto: int,
    code: u16,
)
    requires
        table_entry(lengths, alphabets, len, upto).contains_key(code),
    ensures
        exists|s: int|
            0 <= s < upto && len != 0 && #[trigger] lengths[s] == len && code_of(lengths, s) as u16
                == code && table_entry(lengths, alphabets, len, upto)[code] == alphabets[s] as u16,
    decreases upto,
{
    if upto > 0 {
        let s = upto - 1;
        if len != 0 && lengths[s] == len && code_of(lengths, s) as u16 == code {
        } else {
            lemma_table_entry_has(lengths, alphabets, len, upto - 1, code);
            let t = choose|t: int|
                0 <= t < upto - 1 && len != 0 && #[trigger] lengths[t] == len && code_of(
                    lengths,
                    t,
                ) as u16 == code && table_entry(lengths, alphabets, len, upto - 1)[code]
                    == alphabets[t] as u16;
            assert(lengths[t] == len);
        }
    }
}

/// The code of a symbol is in the table of the symbol's length, with the
/// symbol's name.
pub proof fn lemma_table_entry_of(
    lengths: Seq<usize>,
    alphabets: Seq<usize>,
    upto: int,
    s: int,
)
    requires
        code_lengths_fit(lengths),
        0 <= s < upto <= lengths.len(),
        lengths[s] != 0,
    ensures
        table_entry(lengths, alphabets, lengths[s] as int, upto).contains_key(
            code_of(lengths, s) as u16,
        ),
        table_entry(lengths, alphabets, lengths[s] as int, upto)[code_of(lengths, s) as u16]
            == alphabets[s] as u16,
    decreases upto,
{
    let len = lengths[s] as int;
    if upto - 1 > s {
        lemma_table_entry_of(lengths, alphabets, upto - 1, s);
        if lengths[upto - 1] == len {
            lemma_count_len_grows(lengths, len, s, upto - 1);
            lemma_code_of_fits(lengths, s);
            lemma_code_of_fits(lengths, upto - 1);
        }
    }
}

/// Canonical tables give the code lengths back: in the table built from the
/// code lengths of symbols with distinct names, each symbol that has a code
/// is found at its length and at no other, and a symbol without a code is not
/// found, so that the recovered lengths are the lengths that the table was
/// built from.
pub proof fn lemma_table_recovers_lengths(lengths: Seq<usize>, alphabets: Seq<usize>)
    requires
        lengths.len() == alphabets.len(),
        code_lengths_fit(lengths),
        names_distinct(alphabets),
    ensures
        recovered_lengths(canonical_table(lengths, alphabets), alphabets) == lengths.map_values(
            |len: usize| len as int,
        ),
{
    let table = canonical_table(lengths, alphabets);
    let n = lengths.len() as int;
    lemma_max_length(lengths);
    assert forall|s: int| 0 <= s < n implies length_in_table(table, alphabets[s] as u16)
        == lengths[s] by {
        let name = alphabets[s] as u16;
        if lengths[s] != 0 {
            lemma_table_entry_of(lengths, alphabets, n, s);
            assert(table[lengths[s] as int].contains_key(code_of(lengths, s) as u16));
            assert(named_at(table, name, lengths[s] as int));
        }
        if exists|len: int| named_at(table, name, len) {
            let len = choose|len: int| named_at(table, name, len);
            let code = choose|code: u16| #[trigger]
                table[len].contains_key(code) && table[len][code] == name;
            lemma_table_entry_has(lengths, alphabets, len, n, code);
            let t = choose|t: int|
                0 <= t < n && len != 0 && #[trigger] lengths[t] == len && code_of(lengths, t) as u16
                    == code && table_entry(lengths, alphabets, len, n)[code] == alphabets[t] as u16;
            if t < s {
                assert(alphabets[t] as u16 != alphabets[s] as u16);
            } else if s < t {
                assert(alphabets[s] as u16 != alphabets[t] as u16);
            }
            assert(t == s);
        }
    }
    assert(recovered_lengths(table, alphabets) =~= lengths.map_values(|len: usize| len as int));
}

/// The codes of a length start behind every code of a shorter length that is
/// filled up to the longer length.
pub proof fn lemma_first_code_beyond(lengths: Seq<usize>, short: int, long: int)
    requires
        1 <= short < long,
    ensures
        first_code(lengths, long) >= pow2((long - short) as nat) * (first_code(lengths, short)
            + bl_count(lengths, short)),
    decreases long,
{
    let end = first_code(lengths, short) + bl_count(lengths, short);
    if long == short + 1 {
        lemma_pow2_values(1);
    } else {
        lemma_first_code_beyond(lengths, short, long - 1);
        lemma_pow2_unfold((long - short) as nat);
        let before = pow2((long - 1 - short) as nat);
        assert(2 * (before * end) == (2 * before) * end) by (nonlinear_arith);
    }
}

/// No code is the start of a longer code: the first bits of the code of a
/// symbol are not the code of a symbol with a shorter code.
pub proof fn lemma_no_code_is_a_prefix(lengths: Seq<usize>, s: int, t: int)
    requires
        code_lengths_fit(lengths),
        0 <= s < lengths.len(),
        0 <= t < lengths.len(),
        0 < lengths[t] < lengths[s],
    ensures
        pow2((lengths[s] - lengths[t]) as nat) > 0,
        code_of(lengths, t) != code_of(lengths, s) / pow2((lengths[s] - lengths[t]) as nat),
{
    let short = lengths[t] as int;
    let long = lengths[s] as int;
    let unit = pow2((long - short) as nat);
    let end = first_code(lengths, short) + bl_count(lengths, short);
    lemma_pow2_pos((long - short) as nat);
    lemma_first_code_beyond(lengths, short, long);
    lemma_count_len_grows(lengths, short, t, lengths.len() as int);
    let code = code_of(lengths, s);
    vstd::arithmetic::div_mod::lemma_fundamental_div_mod(code as int, unit as int);
    assert(code / unit >= end) by (nonlinear_arith)
        requires
            code >= unit * end,
            code == unit * (code / unit) + code % unit,
            0 <= code % unit < unit,
            unit > 0,
    ;
}

/// Whether the code lengths make a tree that the decoder accepts.
pub fn check_code_lengths(lengths: &Vec<usize>) -> (valid: bool)
    ensures
        valid == code_lengths_valid(lengths@),
{
    let n = lengths.len();
    let mut counts: Vec<usize> = Vec::new();
    let mut len: usize = 0;
    while len <= 15
        invariant
            len <= 16,
            counts@.len() == len,
            forall|l: int| 0 <= l < len ==> #[trigger] counts@[l] == 0,
        decreases 16 - len,
    {
        counts.push(0);
        len = len + 1;
    }
    let mut s: usize = 0;
    while s < n
        invariant
            s <= n == lengths@.len(),
            counts@.len() == 16,
            forall|l: int|
                0 <= l < 16 ==> #[trigger] counts@[l] == count_len(lengths@, l, s as int),
            forall|t: int| 0 <= t < s ==> #[trigger] lengths@[t] <= 15,
        decreases n - s,
    {
        let here = lengths[s];
        if here > 15 {
            return false;
        }
        proof {
            lemma_count_len_grows(lengths@, here as int, 0, s as int);
        }
        counts.set(here, counts[here] + 1);
        s = s + 1;
    }
    let mut sum: u32 = 0;
    let mut len: usize = 1;
    while len <= 15
        invariant
            1 <= len <= 16,
            counts@.len() == 16,
            n == lengths@.len(),
            forall|l: int|
                0 <= l < 16 ==> #[trigger] counts@[l] == count_len(lengths@, l, n as int),
            sum == kraft_sum(lengths@, len - 1),
            sum <= 32768,
        decreases 16 - len,
    {
        let count = counts[len];
        let unit: u32 = pow2_u32((15 - len) as u32);
        proof {
            lemma_pow2_values((15 - len) as nat);
            lemma_kraft_sum_grows(lengths@, len as int, 15);
            assert(count > 32768 ==> count * unit > 32768) by (nonlinear_arith)
                requires
                    unit >= 1,
            ;
            assert(count <= 32768 ==> count * unit <= 32768 * 16384) by (nonlinear_arith)
                requires
                    unit <= 16384,
                    count >= 0,
            ;
        }
        if count > 32768 {
            return false;
        }
        let share: u32 = (count as u32) * unit;
        if share > 32768 - sum {
            return false;
        }
        sum = sum + share;
        len = len + 1;
    }
    proof {
        lemma_count_len_grows(lengths@, 0, 0, n as int);
    }
    let coded: usize = n - counts[0];
    coded <= 1 || sum == 32768
}

/// The decoding table of the canonical Huffman code in which symbol `i` has
/// the code length `list_lengths[i]`, none where that is 0, and is named
/// `alphabets[i]`: one map from code to name for each code length from 0 to
/// the longest.
pub fn get_mapping_from_canonical_huffman_lengths(
    list_lengths: Vec<usize>,
    alphabets: Vec<usize>,
) -> (table: Vec<HashMap<u16, u16>>)
    requires
        list_lengths@.len() == alphabets@.len(),
        code_lengths_fit(list_lengths@),
    ensures
        table_view(table@) == canonical_table(list_lengths@, alphabets@),
{
    let ghost lengths = list_lengths@;
    let num_alphabets: usize = list_lengths.len();
    let mut table: Vec<HashMap<u16, u16>> = Vec::new();
    if num_alphabets == 0 {
        assert(table_view(table@) =~= canonical_table(list_lengths@, alphabets@));
        return table;
    }
    let mut max: usize = 0;
    let mut s: usize = 0;
    while s < num_alphabets
        invariant
            s <= num_alphabets == lengths.len(),
            lengths == list_lengths@,
            max == max_length(lengths.take(s as int)),
        decreases num_alphabets - s,
    {
        proof {
            assert(lengths.take(s + 1).drop_last() =~= lengths.take(s as int));
        }
        if list_lengths[s] > max {
            max = list_lengths[s];
        }
        s = s + 1;
    }
    proof {
        assert(lengths.take(num_alphabets as int) =~= lengths);
        lemma_max_length(lengths);
        let u = choose|u: int| 0 <= u < lengths.len() && lengths[u] == max_length(lengths) as usize;
        assert(lengths[u] <= 15);
    }
    let mut bl_counts: Vec<usize> = Vec::new();
    let mut next_codes: Vec<u16> = Vec::new();
    let mut len: usize = 0;
    while len <= max
        invariant
            len <= max + 1,
            max <= 15,
            table@.len() == len,
            bl_counts@.len() == len,
            next_codes@.len() == len,
            forall|l: int| 0 <= l < len ==> #[trigger] bl_counts@[l] == 0,
            forall|l: int| 0 <= l < len ==> #[trigger] next_codes@[l] == 0,
            forall|l: int| 0 <= l < len ==> (#[trigger] table@[l])@ == Map::<u16, u16>::empty(),
        decreases max + 1 - len,
    {
        table.push(HashMap::new());
        bl_counts.push(0);
        next_codes.push(0);
        len = len + 1;
    }
    let mut s: usize = 0;
    while s < num_alphabets
        invariant
            s <= num_alphabets == lengths.len(),
            lengths == list_lengths@,
            max == max_length(lengths) <= 15,
            bl_counts@.len() == max + 1,
            forall|l: int|
                0 <= l <= max ==> #[trigger] bl_counts@[l] == count_len(lengths, l, s as int),
        decreases num_alphabets - s,
    {
        let here = list_lengths[s];
        proof {
            lemma_max_length(lengths);
            lemma_count_len_grows(lengths, here as int, 0, s as int);
        }
        bl_counts.set(here, bl_counts[here] + 1);
        s = s + 1;
    }
    let mut code: u16 = 0;
    let mut bits: usize = 1;
    while bits <= max
        invariant
            1 <= bits <= max + 1,
            max == max_length(lengths) <= 15,
            lengths == list_lengths@,
            code_lengths_fit(lengths),
            num_alphabets == lengths.len(),
            bl_counts@.len() == max + 1,
            next_codes@.len() == max + 1,
            forall|l: int|
                0 <= l <= max ==> #[trigger] bl_counts@[l] == count_len(
                    lengths,
                    l,
                    num_alphabets as int,
                ),
            code == first_code(lengths, bits - 1),
            forall|l: int| 1 <= l < bits ==> #[trigger] next_codes@[l] == first_code(lengths, l),
        decreases max + 1 - bits,
    {
        proof {
            lemma_codes_fit(lengths, bits as int);
            lemma_pow2_values(bits as nat);
            if bits > 1 {
                lemma_codes_fit(lengths, bits - 1);
                lemma_pow2_values((bits - 1) as nat);
            }
        }
        let before: u16 = if bits == 1 {
            0
        } else {
            bl_counts[bits - 1] as u16
        };
        code = (code + before) * 2;
        next_codes.set(bits, code);
        bits = bits + 1;
    }
    let mut i: usize = 0;
    while i < num_alphabets
        invariant
            i <= num_alphabets == lengths.len(),
            lengths == list_lengths@,
            lengths.len() == alphabets@.len(),
            code_lengths_fit(lengths),
            max == max_length(lengths) <= 15,
            table@.len() == max + 1,
            next_codes@.len() == max + 1,
            forall|l: int|
                1 <= l <= max ==> #[trigger] next_codes@[l] == first_code(lengths, l) + count_len(
                    lengths,
                    l,
                    i as int,
                ),
            forall|l: int|
                0 <= l <= max ==> (#[trigger] table@[l])@ == table_entry(
                    lengths,
                    alphabets@,
                    l,
                    i as int,
                ),
        decreases num_alphabets - i,
    {
        let length = list_lengths[i];
        if length != 0 {
            proof {
                lemma_max_length(lengths);
                lemma_code_of_fits(lengths, i as int);
            }
            let code: u16 = next_codes[length];
            next_codes.set(length, code + 1);
            let ghost before = table@;
            table[length].insert(code, alphabets[i] as u16);
            proof {
                assert(forall|l: int| 0 <= l <= max && l != length ==> table@[l] == before[l]);
            }
        }
        i = i + 1;
    }
    proof {
        assert(table_view(table@) =~= canonical_table(list_lengths@, alphabets@));
    }
    table
}

/// The code lengths that are not 0, and the names of their symbols.
pub fn delete_zero_from_lengths_and_alphabets(
    list_lengths: Vec<usize>,
    alphabets: Vec<usize>,
) -> (r: (Vec<usize>, Vec<usize>))
    requires
        list_lengths@.len() <= alphabets@.len(),
    ensures
        r.0@ == nonzero_lengths(list_lengths@),
        r.1@ == nonzero_names(list_lengths@, alphabets@),
{
    let mut new_list_lengths: Vec<usize> = Vec::new();
    let mut new_alphabets: Vec<usize> = Vec::new();
    let mut i: usize = 0;
    while i < list_lengths.len()
        invariant
            i <= list_lengths@.len() <= alphabets@.len(),
            new_list_lengths@ == nonzero_lengths(list_lengths@.take(i as int)),
            new_alphabets@ == nonzero_names(list_lengths@.take(i as int), alphabets@),
        decreases list_lengths.len() - i,
    {
        proof {
            assert(list_lengths@.take(i + 1).drop_last() =~= list_lengths@.take(i as int));
        }
        if list_lengths[i] != 0 {
            new_list_lengths.push(list_lengths[i]);
            new_alphabets.push(alphabets[i]);
        }
        i = i + 1;
    }
    proof {
        assert(list_lengths@.take(list_lengths@.len() as int) =~= list_lengths@);
    }
    (new_list_lengths, new_alphabets)
}

/// The code lengths that are not 0, and the symbols that have them.
pub fn generate_no_zero_lengths_and_alphabets(list_lengths: Vec<usize>) -> (r: (
    Vec<usize>,
    Vec<usize>,
))
    ensures
        r.0@ == nonzero_lengths(list_lengths@),
        r.1@ == nonzero_symbols(list_lengths@),
{
    let mut new_list_lengths: Vec<usize> = Vec::new();
    let mut new_alphabets: Vec<usize> = Vec::new();
    let mut i: usize = 0;
    while i < list_lengths.len()
        invariant
            i <= list_lengths@.len(),
            new_list_lengths@ == nonzero_lengths(list_lengths@.take(i as int)),
            new_alphabets@ == nonzero_symbols(list_lengths@.take(i as int)),
        decreases list_lengths.len() - i,
    {
        proof {
            assert(list_lengths@.take(i + 1).drop_last() =~= list_lengths@.take(i as int));
        }
        if list_lengths[i] != 0 {
            new_list_lengths.push(list_lengths[i]);
            new_alphabets.push(i);
        }
        i = i + 1;
    }
    proof {
        assert(list_lengths@.take(list_lengths@.len() as int) =~= list_lengths@);
    }
    (new_list_lengths, new_alphabets)
}

} // verus!
