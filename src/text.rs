use vstd::prelude::*;

verus! {

/// The index of the first `c` in `b` from `i` on; `b.len()` when there is
/// none.
pub open spec fn first_from(b: Seq<u8>, c: u8, i: nat) -> nat
    decreases b.len() - i,
{
    if i >= b.len() {
        b.len()
    } else if b[i as int] == c {
        i
    } else {
        first_from(b, c, i + 1)
    }
}

proof fn lemma_first_from_bounds(b: Seq<u8>, c: u8, i: nat)
    requires
        i <= b.len(),
    ensures
        i <= first_from(b, c, i) <= b.len(),
        first_from(b, c, i) < b.len() ==> b[first_from(b, c, i) as int] == c,
    decreases b.len() - i,
{
    if i < b.len() && b[i as int] != c {
        lemma_first_from_bounds(b, c, i + 1);
    }
}

/// The index of the first `c` in `b` from `from` on, or `b.len()`.
pub fn find_byte(b: &[u8], c: u8, from: usize) -> (r: usize)
    requires
        from <= b@.len(),
    ensures
        r == first_from(b@, c, from as nat),
        from <= r <= b@.len(),
        r < b@.len() ==> b@[r as int] == c,
{
    proof {
        lemma_first_from_bounds(b@, c, from as nat);
    }
    let mut i = from;
    while i < b.len()
        invariant
            from <= i <= b@.len(),
            first_from(b@, c, from as nat) == first_from(b@, c, i as nat),
        decreases b@.len() - i,
    {
        if b[i] == c {
            return i;
        }
        i = i + 1;
    }
    i
}

/// The bytes `b[from..to]`.
pub fn slice_to_vec(b: &[u8], from: usize, to: usize) -> (r: Vec<u8>)
    requires
        from <= to <= b@.len(),
    ensures
        r@ == b@.subrange(from as int, to as int),
{
    let mut r: Vec<u8> = Vec::new();
    let mut i = from;
    while i < to
        invariant
            from <= i <= to,
            to <= b@.len(),
            r@ == b@.subrange(from as int, i as int),
        decreases to - i,
    {
        r.push(b[i]);
        i = i + 1;
        assert(r@ =~= b@.subrange(from as int, i as int));
    }
    r
}

/// The line of `s` that starts at `i`, without its line ending: a `\n`, or
/// a `\r\n`.
pub open spec fn line_at(s: Seq<u8>, i: nat) -> Seq<u8> {
    let j = first_from(s, 10, i);
    let raw = s.subrange(i as int, j as int);
    if j < s.len() && raw.len() > 0 && raw.last() == 13 {
        raw.drop_last()
    } else {
        raw
    }
}

/// The lines of `s` from `i` on. A line ending at the very end starts no
/// further line.
pub open spec fn lines_from(s: Seq<u8>, i: nat) -> Seq<Seq<u8>>
    decreases s.len() - i,
{
    let j = first_from(s, 10, i);
    if i >= s.len() || j < i {
        Seq::empty()
    } else if j >= s.len() {
        seq![line_at(s, i)]
    } else {
        seq![line_at(s, i)] + lines_from(s, j + 1)
    }
}

/// The line of `s` that starts at `i`, and the index of its `\n` (or the
/// length of `s` when it ends the text).
pub fn next_line(s: &[u8], i: usize) -> (r: (Vec<u8>, usize))
    requires
        i < s@.len(),
    ensures
        r.0@ == line_at(s@, i as nat),
        r.1 == first_from(s@, 10, i as nat),
        i <= r.1 <= s@.len(),
        lines_from(s@, i as nat) == seq![r.0@] + if r.1 < s@.len() {
            lines_from(s@, (r.1 + 1) as nat)
        } else {
            Seq::empty()
        },
{
    let j = find_byte(s, 10, i);
    let mut end = j;
    if j < s.len() && j > i && s[j - 1] == 13 {
        end = j - 1;
    }
    let line = slice_to_vec(s, i, end);
    proof {
        let raw = s@.subrange(i as int, j as int);
        if j < s@.len() && j > i && s@[j - 1] == 13 {
            assert(raw.last() == 13);
            assert(line@ =~= raw.drop_last());
        } else {
            assert(line@ =~= raw);
        }
    }
    (line, j)
}

/// The value of some decimal digits.
pub open spec fn digits_value(d: Seq<u8>) -> nat
    decreases d.len(),
{
    if d.len() == 0 {
        0
    } else {
        digits_value(d.drop_last()) * 10 + (d.last() - 48) as nat
    }
}

pub open spec fn all_digits(d: Seq<u8>) -> bool {
    forall|k: int| 0 <= k < d.len() ==> 48 <= #[trigger] d[k] <= 57
}

/// What reading `b` as a `usize` gives: an optional `+`, then at least one
/// decimal digit, and a value that fits.
pub open spec fn usize_of(b: Seq<u8>) -> Option<nat> {
    let d = if b.len() > 0 && b[0] == 43 {
        b.skip(1)
    } else {
        b
    };
    if d.len() > 0 && all_digits(d) && digits_value(d) <= usize::MAX {
        Some(digits_value(d))
    } else {
        None
    }
}

proof fn lemma_digits_grow(d: Seq<u8>, k: nat)
    requires
        all_digits(d),
        k <= d.len(),
    ensures
        digits_value(d.take(k as int)) <= digits_value(d),
    decreases d.len() - k,
{
    if k < d.len() {
        assert(d.take(k as int) =~= d.take((k + 1) as int).drop_last());
        assert(all_digits(d.take((k + 1) as int)));
        lemma_digits_grow(d, k + 1);
        assert(d.take(d.len() as int) =~= d);
    } else {
        assert(d.take(k as int) =~= d);
    }
}

/// Reads `b[from..to]` as a `usize`.
pub fn parse_usize(b: &[u8], from: usize, to: usize) -> (r: Option<usize>)
    requires
        from <= to <= b@.len(),
    ensures
        match (r, usize_of(b@.subrange(from as int, to as int))) {
            (Some(v), Some(w)) => v == w,
            (None, None) => true,
            _ => false,
        },
{
    let ghost whole = b@.subrange(from as int, to as int);
    let mut i = from;
    if i < to && b[i] == 43 {
        i = i + 1;
    }
    let ghost d = b@.subrange(i as int, to as int);
    assert(d =~= if whole.len() > 0 && whole[0] == 43 {
        whole.skip(1)
    } else {
        whole
    });
    assert(usize_of(whole) == if d.len() > 0 && all_digits(d) && digits_value(d) <= usize::MAX {
        Some(digits_value(d))
    } else {
        None
    });
    if i >= to {
        assert(usize_of(whole) is None);
        return None;
    }
    let start = i;
    let mut value: usize = 0;
    while i < to
        invariant
            start <= i <= to,
            to <= b@.len(),
            d == b@.subrange(start as int, to as int),
            whole == b@.subrange(from as int, to as int),
            d.len() > 0,
            usize_of(whole) == if d.len() > 0 && all_digits(d) && digits_value(d) <= usize::MAX {
                Some(digits_value(d))
            } else {
                None
            },
            all_digits(b@.subrange(start as int, i as int)),
            value == digits_value(b@.subrange(start as int, i as int)),
        decreases to - i,
    {
        let c = b[i];
        let ghost prefix = b@.subrange(start as int, (i + 1) as int);
        assert(prefix.drop_last() =~= b@.subrange(start as int, i as int));
        if c < 48 || c > 57 {
            assert(!all_digits(d)) by {
                assert(d[i - start] == c);
            }
            assert(usize_of(whole) is None);
            return None;
        }
        let digit = (c - 48) as usize;
        if value > (usize::MAX - digit) / 10 {
            proof {
                assert(all_digits(prefix));
                assert(digits_value(prefix) > usize::MAX) by (nonlinear_arith)
                    requires
                        digits_value(prefix) == value * 10 + digit,
                        value > (usize::MAX - digit) / 10,
                        digit <= 9,
                ;
                if all_digits(d) {
                    assert(d.take((i + 1 - start) as int) =~= prefix);
                    lemma_digits_grow(d, (i + 1 - start) as nat);
                }
                assert(usize_of(whole) is None);
            }
            return None;
        }
        value = value * 10 + digit;
        i = i + 1;
        assert(all_digits(b@.subrange(start as int, i as int)));
    }
    assert(d =~= b@.subrange(start as int, i as int));
    Some(value)
}

} // verus!
