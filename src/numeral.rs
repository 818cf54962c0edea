use vstd::prelude::*;

verus! {

pub open spec fn is_digit(c: char) -> bool {
    '0' <= c && c <= '9'
}

/// Characters that continue a numeral once its first character is read.
pub open spec fn is_numeral_char(c: char) -> bool {
    is_digit(c) || c == '.' || c == '-'
}

pub open spec fn all_digits(t: Seq<char>) -> bool {
    t.len() > 0 && forall|i: int| 0 <= i < t.len() ==> is_digit(#[trigger] t[i])
}

/// The decimal value of a run of digits.
pub open spec fn digits_value(t: Seq<char>) -> int
    decreases t.len(),
{
    if t.len() == 0 {
        0
    } else {
        digits_value(t.drop_last()) * 10 + (t.last() as int - '0' as int)
    }
}

/// The numeral without its leading minus sign, if it has one.
pub open spec fn unsigned_part(t: Seq<char>) -> Seq<char> {
    if t.len() > 0 && t[0] == '-' {
        t.subrange(1, t.len() as int)
    } else {
        t
    }
}

pub open spec fn is_negative(t: Seq<char>) -> bool {
    t.len() > 0 && t[0] == '-'
}

/// The integer a numeral denotes: an optional minus sign, then digits.
pub open spec fn integer_of(t: Seq<char>) -> Option<int> {
    if all_digits(unsigned_part(t)) {
        if is_negative(t) {
            Some(-digits_value(unsigned_part(t)))
        } else {
            Some(digits_value(unsigned_part(t)))
        }
    } else {
        None
    }
}

pub open spec fn fits_i64(n: int) -> bool {
    i64::MIN <= n && n <= i64::MAX
}

/// A real numeral: an optional minus sign, then digits with at most one
/// decimal point among them and at least one digit. No exponent, no `+`.
pub open spec fn is_real_numeral(t: Seq<char>) -> bool {
    let u = unsigned_part(t);
    &&& forall|i: int| 0 <= i < u.len() ==> is_digit(#[trigger] u[i]) || u[i] == '.'
    &&& forall|i: int, j: int|
        0 <= i < u.len() && 0 <= j < u.len() && #[trigger] u[i] == '.' && #[trigger] u[j] == '.'
            ==> i == j
    &&& exists|i: int| 0 <= i < u.len() && is_digit(#[trigger] u[i])
}

proof fn lemma_digits_value_nonneg(t: Seq<char>)
    requires
        forall|i: int| 0 <= i < t.len() ==> is_digit(#[trigger] t[i]),
    ensures
        digits_value(t) >= 0,
    decreases t.len(),
{
    if t.len() > 0 {
        let p = t.drop_last();
        assert forall|i: int| 0 <= i < p.len() implies is_digit(#[trigger] p[i]) by {
            assert(p[i] == t[i]);
        }
        lemma_digits_value_nonneg(p);
    }
}

/// Reads `t[from..to]` as a signed 64-bit integer.
pub fn integer_value(t: &Vec<char>, from: usize, to: usize) -> (r: Option<i64>)
    requires
        from <= to <= t.len(),
    ensures
        ({
            let s = t@.subrange(from as int, to as int);
            match r {
                Some(n) => integer_of(s) == Some(n as int),
                None => integer_of(s) is None || !fits_i64(integer_of(s)->Some_0),
            }
        }),
{
    let ghost s = t@.subrange(from as int, to as int);
    let neg: bool = from < to && t[from] == '-';
    let start: usize = if neg {
        from + 1
    } else {
        from
    };
    let ghost u = t@.subrange(start as int, to as int);
    assert(u =~= unsigned_part(s));
    if start == to {
        return None;
    }
    let limit: u128 = if neg {
        0x8000_0000_0000_0000u128
    } else {
        0x7fff_ffff_ffff_ffffu128
    };
    let mut mag: u128 = 0;
    let mut over: bool = false;
    let mut k: usize = start;
    while k < to
        invariant
            from <= start <= k <= to <= t.len(),
            u == t@.subrange(start as int, to as int),
            s == t@.subrange(from as int, to as int),
            u == unsigned_part(s),
            limit == (if neg { 0x8000_0000_0000_0000int } else { 0x7fff_ffff_ffff_ffffint }),
            forall|i: int| start <= i < k ==> is_digit(#[trigger] t@[i]),
            !over ==> mag == digits_value(t@.subrange(start as int, k as int)) && mag <= limit,
            over ==> digits_value(t@.subrange(start as int, k as int)) > limit,
        decreases to - k,
    {
        let c = t[k];
        if !('0' <= c && c <= '9') {
            assert(u[k - start] == c);
            assert(!is_digit(u[k - start]));
            assert(!all_digits(u));
            return None;
        }
        let ghost p = t@.subrange(start as int, k as int);
        let ghost q = t@.subrange(start as int, k + 1);
        assert(q.drop_last() =~= p);
        proof {
            assert forall|i: int| 0 <= i < p.len() implies is_digit(#[trigger] p[i]) by {
                assert(p[i] == t@[start + i]);
            }
            lemma_digits_value_nonneg(p);
        }
        if !over {
            let d: u128 = (c as u32 - '0' as u32) as u128;
            let next: u128 = mag * 10 + d;
            if next > limit {
                over = true;
            } else {
                mag = next;
            }
        }
        k = k + 1;
    }
    assert(u =~= t@.subrange(start as int, k as int));
    assert forall|i: int| 0 <= i < u.len() implies is_digit(#[trigger] u[i]) by {
        assert(u[i] == t@[start + i]);
    }
    if over {
        return None;
    }
    if neg {
        if mag == 0x8000_0000_0000_0000u128 {
            Some(i64::MIN)
        } else {
            Some(-(mag as i64))
        }
    } else {
        Some(mag as i64)
    }
}

/// Whether `t[from..to]` is a real numeral.
pub fn is_real_value(t: &Vec<char>, from: usize, to: usize) -> (r: bool)
    requires
        from <= to <= t.len(),
    ensures
        r == is_real_numeral(t@.subrange(from as int, to as int)),
{
    let ghost s = t@.subrange(from as int, to as int);
    let neg: bool = from < to && t[from] == '-';
    let start: usize = if neg {
        from + 1
    } else {
        from
    };
    let ghost u = t@.subrange(start as int, to as int);
    assert(u =~= unsigned_part(s));
    let mut dot: bool = false;
    let mut digit: bool = false;
    let mut k: usize = start;
    while k < to
        invariant
            from <= start <= k <= to <= t.len(),
            u == t@.subrange(start as int, to as int),
            s == t@.subrange(from as int, to as int),
            u == unsigned_part(s),
            forall|i: int| 0 <= i < k - start ==> is_digit(#[trigger] u[i]) || u[i] == '.',
            dot ==> exists|i: int| 0 <= i < k - start && u[i] == '.',
            !dot ==> forall|i: int| 0 <= i < k - start ==> u[i] != '.',
            dot ==> forall|i: int, j: int|
                0 <= i < k - start && 0 <= j < k - start && #[trigger] u[i] == '.'
                    && #[trigger] u[j] == '.' ==> i == j,
            digit <==> exists|i: int| 0 <= i < k - start && is_digit(#[trigger] u[i]),
        decreases to - k,
    {
        let c = t[k];
        assert(u[k - start] == c);
        if c == '.' {
            if dot {
                let ghost w = choose|i: int| 0 <= i < k - start && u[i] == '.';
                assert(u[w] == '.' && u[k - start] == '.');
                assert(w != k - start);
                assert(!is_real_numeral(s));
                return false;
            }
            dot = true;
        } else if '0' <= c && c <= '9' {
            digit = true;
        } else {
            assert(!(is_digit(u[k - start]) || u[k - start] == '.'));
            assert(!is_real_numeral(s));
            return false;
        }
        k = k + 1;
    }
    assert(u =~= t@.subrange(start as int, k as int));
    digit
}

} // verus!
