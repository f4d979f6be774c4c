//! The base-32 symbol table `0123456789bcdefghjkmnpqrstuvwxyz` and its inverse.
use vstd::prelude::*;

verus! {

/// Number of symbols in the table.
pub const ALPHABET_SIZE: u8 = 32;

/// The symbols, in order of position.
pub open spec fn alphabet() -> Seq<char> {
    seq!['0', '1', '2', '3', '4', '5', '6', '7', '8', '9', 'b', 'c', 'd', 'e', 'f', 'g', 'h', 'j', 'k', 'm', 'n', 'p', 'q', 'r', 's', 't', 'u', 'v', 'w', 'x', 'y', 'z']
}

/// The symbol at position `k` (`0 <= k < 32`).
pub open spec fn symbol_spec(k: int) -> char {
    alphabet()[k]
}

/// Whether `c` is one of the 32 symbols.
pub open spec fn is_symbol(c: char) -> bool {
    exists|k: int| 0 <= k < 32 && c == symbol_spec(k)
}

/// Position of character `c` in the table, or `None` when `c` is not a symbol.
pub open spec fn position_spec(c: char) -> Option<u8> {
    if is_symbol(c) {
        Some((choose|k: int| 0 <= k < 32 && c == symbol_spec(k)) as u8)
    } else {
        None
    }
}

/// Character code of the symbol at position `k`: the table skips `a`, `i`,
/// `l` and `o`, so each run of consecutive letters is shifted by one more
/// than the run before it.
spec fn symbol_code(k: int) -> int {
    if k < 10 {
        48 + k
    } else if k < 17 {
        88 + k
    } else if k < 19 {
        89 + k
    } else if k < 21 {
        90 + k
    } else {
        91 + k
    }
}

proof fn lemma_symbol_code(k: int)
    requires
        0 <= k < 32,
    ensures
        symbol_spec(k) as u32 == symbol_code(k),
{
    reveal_with_fuel(symbol_code, 1);
}

/// Two positions hold the same symbol only if they are equal.
proof fn lemma_symbols_distinct(j: int, k: int)
    requires
        0 <= j < 32,
        0 <= k < 32,
        symbol_spec(j) == symbol_spec(k),
    ensures
        j == k,
{
    lemma_symbol_code(j);
    lemma_symbol_code(k);
}

/// A character whose code is that of position `k` is the symbol there, and
/// that is its position.
proof fn lemma_position_of(c: char, k: int)
    requires
        0 <= k < 32,
        c as u32 == symbol_code(k),
    ensures
        c == symbol_spec(k),
        position_spec(c) == Some(k as u8),
{
    lemma_symbol_code(k);
    assert(c == symbol_spec(k));
    let j = choose|j: int| 0 <= j < 32 && c == symbol_spec(j);
    lemma_symbols_distinct(j, k);
}

/// Returns the symbol at position `k`.
pub fn symbol(k: u8) -> (c: char)
    requires
        k < ALPHABET_SIZE,
    ensures
        c == symbol_spec(k as int),
{
    proof {
        lemma_symbol_code(k as int);
    }
    let code: u8 = if k < 10 {
        48 + k
    } else if k < 17 {
        88 + k
    } else if k < 19 {
        89 + k
    } else if k < 21 {
        90 + k
    } else {
        91 + k
    };
    code as char
}

/// Returns the position of `c` in the table, or `None` when `c` is not a symbol.
pub fn position(c: char) -> (r: Option<u8>)
    ensures
        r == position_spec(c),
{
    let x = c as u32;
    proof {
        assert forall|k: int| 0 <= k < 32 implies #[trigger] symbol_spec(k) as u32 == symbol_code(k) by {
            lemma_symbol_code(k);
        }
        if is_symbol(c) {
            let k = choose|k: int| 0 <= k < 32 && c == symbol_spec(k);
            assert(symbol_spec(k) as u32 == symbol_code(k));
        }
        if 48 <= x <= 57 {
            lemma_position_of(c, x - 48);
        } else if 98 <= x <= 104 {
            lemma_position_of(c, x - 88);
        } else if 106 <= x <= 107 {
            lemma_position_of(c, x - 89);
        } else if 109 <= x <= 110 {
            lemma_position_of(c, x - 90);
        } else if 112 <= x <= 122 {
            lemma_position_of(c, x - 91);
        }
    }
    if 48 <= x && x <= 57 {
        Some((x - 48) as u8)
    } else if 98 <= x && x <= 104 {
        Some((x - 88) as u8)
    } else if 106 <= x && x <= 107 {
        Some((x - 89) as u8)
    } else if 109 <= x && x <= 110 {
        Some((x - 90) as u8)
    } else if 112 <= x && x <= 122 {
        Some((x - 91) as u8)
    } else {
        None
    }
}

/// The table is a bijection between positions `0..32` and its symbols:
/// looking up the symbol at a position gives that position back, and every
/// character that has a position is the symbol stored there.
pub proof fn lemma_alphabet_bijective(k: int, c: char)
    requires
        0 <= k < 32,
    ensures
        position_spec(symbol_spec(k)) == Some(k as u8),
        position_spec(c) matches Some(j) ==> j < 32 && symbol_spec(j as int) == c,
        symbol_spec(k) == c ==> position_spec(c) == Some(k as u8),
{
    lemma_symbol_code(k);
    lemma_position_of(symbol_spec(k), k);
}

} // verus!
