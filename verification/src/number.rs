use crate::grammar::{
    exponent_split, lemma_exponent_split, lemma_exponent_split_at, lemma_exponent_split_none,
    valid_exponent, valid_mantissa, valid_number_token,
};
use crate::util::{
    is_digit, is_digit_byte, EXPONENT, NEGATIVE, NUMBER_DECIMAL_DELIMITER, POSITIVE,
};
use vstd::prelude::*;
use vstd::slice::slice_index_get;

verus! {

/// Characterises `valid_mantissa` on a region `[off, e)` of `t` that holds
/// only digits and decimal points, given how many decimal points it holds.
proof fn lemma_mantissa_region(
    t: Seq<u8>,
    off: int,
    e: int,
    saw_digit: bool,
    saw_dot: bool,
    two_dots: bool,
    dot_pos: int,
)
    requires
        0 <= off <= e <= t.len(),
        forall|j: int| off <= j < e ==> (is_digit_byte(t[j]) || t[j] == NUMBER_DECIMAL_DELIMITER),
        saw_digit == exists|j: int| off <= j < e && is_digit_byte(t[j]),
        !saw_dot ==> forall|j: int| off <= j < e ==> t[j] != NUMBER_DECIMAL_DELIMITER,
        saw_dot ==> off <= dot_pos < e && t[dot_pos] == NUMBER_DECIMAL_DELIMITER,
        !two_dots ==> forall|j: int|
            off <= j < e && t[j] == NUMBER_DECIMAL_DELIMITER ==> j == dot_pos,
        two_dots ==> exists|j: int, k: int|
            off <= j < k < e && t[j] == NUMBER_DECIMAL_DELIMITER && t[k]
                == NUMBER_DECIMAL_DELIMITER,
    ensures
        valid_mantissa(t.subrange(off, e)) == (saw_digit && !two_dots),
{
    let sub = t.subrange(off, e);
    assert(forall|x: int|
        0 <= x < sub.len() ==> (is_digit_byte(#[trigger] sub[x]) || sub[x]
            == NUMBER_DECIMAL_DELIMITER)) by {
        assert(forall|x: int| 0 <= x < sub.len() ==> #[trigger] sub[x] == t[off + x]);
    };
    if saw_digit && !two_dots {
        let w = choose|j: int| off <= j < e && is_digit_byte(t[j]);
        assert(sub[w - off] == t[w]);
        assert(exists|x: int| 0 <= x < sub.len() && is_digit_byte(sub[x]));
        assert(forall|x: int, y: int|
            0 <= x < y < sub.len() ==> !(#[trigger] sub[x] == NUMBER_DECIMAL_DELIMITER
                && #[trigger] sub[y] == NUMBER_DECIMAL_DELIMITER)) by {
            assert forall|x: int, y: int|
                0 <= x < y < sub.len() && sub[x] == NUMBER_DECIMAL_DELIMITER && sub[y]
                    == NUMBER_DECIMAL_DELIMITER implies false by {
                assert(sub[x] == t[off + x]);
                assert(sub[y] == t[off + y]);
                assert(off + x == dot_pos && off + y == dot_pos);
            };
        };
        assert(valid_mantissa(sub));
    }
    if !saw_digit {
        assert forall|x: int| 0 <= x < sub.len() implies !is_digit_byte(sub[x]) by {
            assert(sub[x] == t[off + x]);
        };
        assert(!valid_mantissa(sub));
    }
    if two_dots {
        let (j, k): (int, int) = choose|j: int, k: int|
            off <= j < k < e && t[j] == NUMBER_DECIMAL_DELIMITER && t[k]
                == NUMBER_DECIMAL_DELIMITER;
        assert(sub[j - off] == t[j]);
        assert(sub[k - off] == t[k]);
        assert(!valid_mantissa(sub));
    }
}

/// Decides whether the accumulated token `t` denotes a number, exactly as
/// [`valid_number_token`] states it.
#[verifier::rlimit(50)]
pub fn check_number_token(t: &[u8]) -> (r: bool)
    ensures
        r == valid_number_token(t@),
{
    let n = t.len();
    let off: usize = if n > 0 && *slice_index_get(t, 0) == NEGATIVE {
        1
    } else {
        0
    };
    let ghost m = if t@.len() > 0 && t@[0] == NEGATIVE {
        t@.subrange(1, t@.len() as int)
    } else {
        t@
    };
    proof {
        assert(m =~= t@.subrange(off as int, n as int));
    }
    let mut i: usize = off;
    let mut saw_digit = false;
    let mut saw_dot = false;
    let mut two_dots = false;
    let ghost mut dot_pos: int = 0;
    while i < n
        && (is_digit(*slice_index_get(t, i)) || *slice_index_get(t, i)
            == NUMBER_DECIMAL_DELIMITER)
        invariant
            off <= i <= n,
            n == t@.len(),
            forall|j: int|
                off <= j < i ==> (is_digit_byte(#[trigger] t@[j]) || t@[j]
                    == NUMBER_DECIMAL_DELIMITER),
            saw_digit == exists|j: int| off <= j < i && is_digit_byte(t@[j]),
            !saw_dot ==> forall|j: int| off <= j < i ==> t@[j] != NUMBER_DECIMAL_DELIMITER,
            saw_dot ==> off <= dot_pos < i && t@[dot_pos] == NUMBER_DECIMAL_DELIMITER,
            !two_dots ==> forall|j: int|
                off <= j < i && t@[j] == NUMBER_DECIMAL_DELIMITER ==> j == dot_pos,
            two_dots ==> exists|j: int, k: int|
                off <= j < k < i && t@[j] == NUMBER_DECIMAL_DELIMITER && t@[k]
                    == NUMBER_DECIMAL_DELIMITER,
        decreases n - i,
    {
        let b = *slice_index_get(t, i);
        if b == NUMBER_DECIMAL_DELIMITER {
            if saw_dot {
                two_dots = true;
            } else {
                saw_dot = true;
                proof {
                    dot_pos = i as int;
                }
            }
        } else {
            saw_digit = true;
        }
        i = i + 1;
    }
    let e_idx = i;
    let mantissa_ok = saw_digit && !two_dots;
    proof {
        lemma_mantissa_region(t@, off as int, e_idx as int, saw_digit, saw_dot, two_dots, dot_pos);
    }
    if i == n {
        proof {
            assert(m == t@.subrange(off as int, e_idx as int));
            assert forall|k: int| 0 <= k < m.len() implies m[k] != EXPONENT by {
                assert(m[k] == t@[off + k]);
            };
            lemma_exponent_split_none(m);
            assert(valid_number_token(t@) == mantissa_ok);
        }
        return mantissa_ok;
    }
    // A byte outside the digit-or-point set stopped the mantissa scan.
    let b = *slice_index_get(t, i);
    if b != EXPONENT {
        proof {
            // The byte at `i` is neither a digit, nor the decimal point, nor
            // the exponent marker. Whole-mantissa reading fails on it, and if
            // an exponent marker occurs at all, it stands after `i`, so the
            // mantissa part of the split still holds the byte at `i`.
            assert(m[i - off] == t@[i as int]);
            assert(!valid_mantissa(m));
            lemma_exponent_split(m);
            match exponent_split(m) {
                None => {},
                Some(k) => {
                    assert(m[k] == t@[off + k]);
                    if off + k < i {
                        assert(is_digit_byte(t@[off + k]) || t@[off + k]
                            == NUMBER_DECIMAL_DELIMITER);
                        assert(false);
                    } else {
                        assert(off + k > i);
                        let sub = m.subrange(0, k);
                        assert(sub[i - off] == m[i - off]);
                        assert(!valid_mantissa(sub));
                    }
                },
            }
            assert(!valid_number_token(t@));
        }
        return false;
    }
    // An exponent marker at `i`: the token is valid iff the mantissa before
    // it and the signed digit run after it both are.
    let ghost k0 = i - off;
    let ghost expseq = m.subrange(k0 + 1, m.len() as int);
    proof {
        assert(m[k0] == t@[i as int]);
        assert forall|j: int| 0 <= j < k0 implies m[j] != EXPONENT by {
            assert(m[j] == t@[off + j]);
        };
        lemma_exponent_split_at(m, k0);
        assert(m.subrange(0, k0) =~= t@.subrange(off as int, e_idx as int));
        assert(valid_number_token(t@) == (mantissa_ok && valid_exponent(expseq)));
        assert(expseq =~= t@.subrange(i + 1, n as int));
    }
    i = i + 1;
    if i < n && (*slice_index_get(t, i) == POSITIVE || *slice_index_get(t, i) == NEGATIVE) {
        i = i + 1;
        proof {
            assert(expseq.len() > 0 && (expseq[0] == POSITIVE || expseq[0] == NEGATIVE));
        }
    } else {
        proof {
            assert(expseq.len() > 0 ==> expseq[0] == t@[i as int]);
        }
    }
    let ghost d = if expseq.len() > 0 && (expseq[0] == POSITIVE || expseq[0] == NEGATIVE) {
        expseq.subrange(1, expseq.len() as int)
    } else {
        expseq
    };
    proof {
        assert(d =~= t@.subrange(i as int, n as int));
    }
    if i == n {
        proof {
            assert(d.len() == 0);
            assert(!valid_exponent(expseq));
        }
        return false;
    }
    let digits_start = i;
    while i < n && is_digit(*slice_index_get(t, i))
        invariant
            digits_start <= i <= n,
            n == t@.len(),
            forall|x: int| digits_start <= x < i ==> is_digit_byte(#[trigger] t@[x]),
        decreases n - i,
    {
        i = i + 1;
    }
    if i < n {
        proof {
            assert(d[i - digits_start] == t@[i as int]);
            assert(!is_digit_byte(t@[i as int]));
            assert(!valid_exponent(expseq));
        }
        return false;
    }
    proof {
        assert(d.len() == n - digits_start);
        assert forall|x: int| 0 <= x < d.len() implies is_digit_byte(d[x]) by {
            assert(d[x] == t@[digits_start + x]);
        };
        assert(valid_exponent(expseq));
    }
    mantissa_ok
}

} // verus!
