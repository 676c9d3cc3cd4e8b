//! Canonical decimal runs: the numerals inside the record's textual form.
//!
//! A number is rendered as its decimal digits with no sign, no leading
//! zeros and `0` for zero. The parser accepts exactly these canonical
//! runs, which is what makes the textual form of a record unique.

use vstd::prelude::*;

verus! {

pub open spec fn is_digit(b: u8) -> bool {
    0x30 <= b <= 0x39
}

/// The digit character for a value between 0 and 9.
pub open spec fn digit_of(n: int) -> u8
    recommends
        0 <= n <= 9,
{
    (0x30 + n) as u8
}

/// The canonical decimal digits of a number, most significant first.
pub open spec fn dec_digits(n: nat) -> Seq<u8>
    decreases n,
{
    if n < 10 {
        seq![digit_of(n as int)]
    } else {
        dec_digits(n / 10).push(digit_of((n % 10) as int))
    }
}

/// The value of a digit run, most significant first.
pub open spec fn digits_val(s: Seq<u8>) -> int
    decreases s.len(),
{
    if s.len() == 0 {
        0
    } else {
        digits_val(s.drop_last()) * 10 + (s.last() - 0x30)
    }
}

pub open spec fn all_digits(s: Seq<u8>) -> bool {
    forall|i: int| 0 <= i < s.len() ==> is_digit(#[trigger] s[i])
}

/// A digit run is canonical when it is nonempty and has no leading zero
/// (except the single digit `0`).
pub open spec fn canonical_digits(s: Seq<u8>) -> bool {
    &&& all_digits(s)
    &&& s.len() > 0
    &&& (s[0] != 0x30 || s.len() == 1)
}

/// Rendering a number gives back its value.
pub proof fn lemma_dec_digits_val(n: nat)
    ensures
        digits_val(dec_digits(n)) == n,
    decreases n,
{
    if n < 10 {
        let s = dec_digits(n);
        assert(s =~= seq![digit_of(n as int)]);
        assert(s.drop_last() =~= Seq::<u8>::empty());
        assert(s.last() == digit_of(n as int));
        assert(digit_of(n as int) == 0x30 + n);
        assert(digits_val(s) == digits_val(s.drop_last()) * 10 + (s.last() - 0x30));
    } else {
        lemma_dec_digits_val(n / 10);
        let s = dec_digits(n);
        assert(s.drop_last() =~= dec_digits(n / 10));
        assert(s.last() == digit_of((n % 10) as int));
        assert(digit_of((n % 10) as int) == 0x30 + n % 10);
        assert(digits_val(s) == digits_val(s.drop_last()) * 10 + (s.last() - 0x30));
        assert(digits_val(s) == (n / 10) * 10 + n % 10);
    }
}

/// A rendered number is a canonical digit run, and a positive number
/// never starts with the zero digit.
pub proof fn lemma_dec_digits_canonical(n: nat)
    ensures
        canonical_digits(dec_digits(n)),
        n > 0 ==> dec_digits(n)[0] != 0x30,
        n < 10 ==> dec_digits(n).len() == 1,
        n >= 10 ==> dec_digits(n).len() >= 2,
    decreases n,
{
    if n < 10 {
        assert(dec_digits(n) =~= seq![digit_of(n as int)]);
    } else {
        lemma_dec_digits_canonical(n / 10);
        let front = dec_digits(n / 10);
        let s = dec_digits(n);
        assert(s =~= front.push(digit_of((n % 10) as int)));
        assert(s[0] == front[0]);
    }
}

/// A digit run has a nonnegative value.
pub proof fn lemma_digits_val_nonneg(s: Seq<u8>)
    requires
        all_digits(s),
    ensures
        digits_val(s) >= 0,
    decreases s.len(),
{
    if s.len() > 0 {
        assert(all_digits(s.drop_last())) by {
            assert(forall|i: int|
                0 <= i < s.drop_last().len() ==> #[trigger] s.drop_last()[i] == s[i]);
        }
        lemma_digits_val_nonneg(s.drop_last());
    }
}

/// A digit run that does not start with the zero digit has a positive value.
pub proof fn lemma_digits_val_pos(s: Seq<u8>)
    requires
        all_digits(s),
        s.len() > 0,
        s[0] != 0x30,
    ensures
        digits_val(s) >= 1,
    decreases s.len(),
{
    assert(is_digit(s[s.len() - 1]));
    assert(s.last() - 0x30 >= 0);
    if s.len() == 1 {
        assert(s.drop_last() =~= Seq::<u8>::empty());
        assert(digits_val(s) == digits_val(s.drop_last()) * 10 + (s.last() - 0x30));
        assert(s.last() == s[0]);
        assert(s.last() - 0x30 >= 1);
    } else {
        assert(all_digits(s.drop_last())) by {
            assert(forall|i: int|
                0 <= i < s.drop_last().len() ==> #[trigger] s.drop_last()[i] == s[i]);
        }
        assert(s.drop_last()[0] == s[0]);
        lemma_digits_val_pos(s.drop_last());
        assert(digits_val(s) == digits_val(s.drop_last()) * 10 + (s.last() - 0x30));
    }
}

/// Rendering the value of a canonical digit run gives the run back:
/// the rendering is a bijection between numbers and canonical runs.
pub proof fn lemma_digits_round_trip(s: Seq<u8>)
    requires
        canonical_digits(s),
    ensures
        digits_val(s) >= 0,
        dec_digits(digits_val(s) as nat) == s,
    decreases s.len(),
{
    lemma_digits_val_nonneg(s);
    if s.len() == 1 {
        assert(s.drop_last() =~= Seq::<u8>::empty());
        assert(digits_val(s) == digits_val(s.drop_last()) * 10 + (s.last() - 0x30));
        assert(s.last() == s[0]);
        assert(digits_val(s) == s[0] - 0x30);
        assert(dec_digits((s[0] - 0x30) as nat) =~= s);
    } else {
        let front = s.drop_last();
        assert(all_digits(front) && front[0] == s[0]) by {
            assert(forall|i: int| 0 <= i < front.len() ==> #[trigger] front[i] == s[i]);
        }
        lemma_digits_round_trip(front);
        lemma_digits_val_pos(front);
        let v = digits_val(s);
        let fv = digits_val(front);
        let d = s.last() - 0x30;
        assert(v == fv * 10 + d);
        assert(v / 10 == fv && v % 10 == d) by {
            assert(0 <= d < 10);
        }
        assert(v >= 10);
        assert(dec_digits(v as nat) == dec_digits(fv as nat).push(digit_of(d)));
        assert(dec_digits(v as nat) =~= s);
    }
}

/// Extending a digit run at the right end never shrinks its value.
pub proof fn lemma_digits_val_extend(s: Seq<u8>, t: Seq<u8>)
    requires
        all_digits(s),
        all_digits(t),
    ensures
        digits_val(s + t) >= digits_val(s),
    decreases t.len(),
{
    if t.len() == 0 {
        assert(s + t =~= s);
    } else {
        let t0 = t.drop_last();
        assert(all_digits(t0)) by {
            assert(forall|i: int| 0 <= i < t0.len() ==> #[trigger] t0[i] == t[i]);
        }
        lemma_digits_val_extend(s, t0);
        assert((s + t).drop_last() =~= s + t0);
        assert(all_digits(s + t0));
        lemma_digits_val_nonneg(s + t0);
        assert(digits_val(s + t) == digits_val(s + t0) * 10 + ((s + t).last() - 0x30));
    }
}

/// Where the digit run beginning at position `i` ends.
pub open spec fn digit_run_end(s: Seq<u8>, i: int) -> int
    decreases s.len() - i,
{
    if 0 <= i && i < s.len() && is_digit(s[i]) {
        digit_run_end(s, i + 1)
    } else {
        i
    }
}

/// The digit run is a well-positioned run of digits ending at a non-digit.
pub proof fn lemma_digit_run_end(s: Seq<u8>, i: int)
    requires
        0 <= i <= s.len(),
    ensures
        i <= digit_run_end(s, i) <= s.len(),
        forall|k: int| i <= k < digit_run_end(s, i) ==> is_digit(#[trigger] s[k]),
        digit_run_end(s, i) == s.len() || !is_digit(s[digit_run_end(s, i)]),
    decreases s.len() - i,
{
    if i < s.len() && is_digit(s[i]) {
        lemma_digit_run_end(s, i + 1);
    }
}

/// A maximal run of digits pins where the digit run ends.
pub proof fn lemma_digit_run_end_exact(s: Seq<u8>, i: int, j: int)
    requires
        0 <= i <= j <= s.len(),
        forall|k: int| i <= k < j ==> is_digit(#[trigger] s[k]),
        j == s.len() || !is_digit(s[j]),
    ensures
        digit_run_end(s, i) == j,
    decreases j - i,
{
    if i < j {
        lemma_digit_run_end_exact(s, i + 1, j);
    }
}

/// Parses the canonical decimal run at position `i`: the value (at most
/// `cap`) and the position just past the run.
pub open spec fn spec_parse_nat(s: Seq<u8>, i: int, cap: int) -> Option<(int, int)> {
    let j = digit_run_end(s, i);
    if j == i {
        None
    } else if s[i] == 0x30 && j > i + 1 {
        None
    } else if digits_val(s.subrange(i, j)) > cap {
        None
    } else {
        Some((digits_val(s.subrange(i, j)), j))
    }
}

/// Completeness: at the start of a rendered number followed by anything
/// that does not begin with a digit, the parser returns exactly that
/// number and stops right after it.
pub proof fn lemma_parse_nat_complete(pre: Seq<u8>, n: nat, cap: int, rest: Seq<u8>)
    requires
        n <= cap,
        rest.len() == 0 || !is_digit(rest[0]),
    ensures
        spec_parse_nat(pre + dec_digits(n) + rest, pre.len() as int, cap) == Some(
            (n as int, pre.len() + dec_digits(n).len() as int),
        ),
{
    let s = pre + dec_digits(n) + rest;
    let i = pre.len() as int;
    let d = dec_digits(n);
    let j = i + d.len() as int;
    lemma_dec_digits_canonical(n);
    lemma_dec_digits_val(n);
    assert(forall|k: int| i <= k < j ==> #[trigger] s[k] == d[k - i]);
    assert(s.subrange(i, j) =~= d);
    assert(forall|k: int| i <= k < j ==> is_digit(#[trigger] s[k]));
    assert(j == s.len() || !is_digit(s[j])) by {
        if j < s.len() {
            assert(s[j] == rest[0]);
        }
    }
    lemma_digit_run_end_exact(s, i, j);
    assert(s[i] == d[0]);
    if n == 0 {
        assert(d.len() == 1);
    } else {
        assert(s[i] != 0x30);
    }
}

/// Soundness: whatever the parser accepts is the rendering of the value
/// it returns, located exactly between the two positions.
pub proof fn lemma_parse_nat_sound(s: Seq<u8>, i: int, cap: int)
    requires
        0 <= i <= s.len(),
        spec_parse_nat(s, i, cap) is Some,
    ensures
        ({
            let (n, j) = spec_parse_nat(s, i, cap)->Some_0;
            &&& i < j <= s.len()
            &&& 0 <= n <= cap
            &&& s.subrange(i, j) == dec_digits(n as nat)
            &&& (j == s.len() || !is_digit(s[j]))
        }),
{
    let j = digit_run_end(s, i);
    lemma_digit_run_end(s, i);
    let run = s.subrange(i, j);
    assert(all_digits(run)) by {
        assert(forall|k: int| 0 <= k < run.len() ==> #[trigger] run[k] == s[i + k]);
    }
    assert(run[0] == s[i]);
    assert(canonical_digits(run));
    lemma_digits_round_trip(run);
}

/// Appends the decimal rendering of a number.
pub fn push_u64_dec(out: &mut Vec<u8>, n: u64)
    ensures
        final(out)@ == old(out)@ + dec_digits(n as nat),
    decreases n,
{
    if n < 10 {
        out.push(0x30 + n as u8);
        assert(out@ =~= old(out)@ + dec_digits(n as nat));
    } else {
        push_u64_dec(out, n / 10);
        out.push(0x30 + (n % 10) as u8);
        assert(out@ =~= old(out)@ + dec_digits(n as nat));
    }
}

/// Parses the canonical decimal run at position `i` of `s`, up to `cap`.
pub fn parse_nat_run(s: &Vec<u8>, i: usize, cap: u64) -> (r: Option<(u64, usize)>)
    requires
        i <= s@.len(),
    ensures
        match r {
            Some((v, j)) => spec_parse_nat(s@, i as int, cap as int) == Some((v as int, j as int))
                && i < j <= s@.len(),
            None => spec_parse_nat(s@, i as int, cap as int) is None,
        },
{
    let len = s.len();
    proof {
        lemma_digit_run_end(s@, i as int);
    }
    if i >= len || s[i] < 0x30 || s[i] > 0x39 {
        return None;
    }
    if s[i] == 0x30 {
        if i + 1 < len && s[i + 1] >= 0x30 && s[i + 1] <= 0x39 {
            proof {
                lemma_digit_run_end(s@, i + 2);
            }
            return None;
        } else {
            proof {
                assert(digit_run_end(s@, i + 1) == i + 1);
                assert(digit_run_end(s@, i as int) == i + 1);
                let run = s@.subrange(i as int, i + 1);
                assert(run.len() == 1 && run[0] == s@[i as int]);
                assert(run.drop_last() =~= Seq::<u8>::empty());
                assert(digits_val(run) == digits_val(run.drop_last()) * 10 + (run.last()
                    - 0x30));
                assert(digits_val(run) == 0);
            }
            return Some((0, i + 1));
        }
    }
    let mut val: u64 = 0;
    let mut pos: usize = i;
    let ghost j = digit_run_end(s@, i as int);
    while pos < len && s[pos] >= 0x30 && s[pos] <= 0x39
        invariant
            i <= pos <= len,
            len == s@.len(),
            s@[i as int] != 0x30,
            is_digit(s@[i as int]),
            j == digit_run_end(s@, i as int),
            j == digit_run_end(s@, pos as int),
            i <= j <= len,
            forall|k: int| i <= k < pos ==> is_digit(#[trigger] s@[k]),
            val == digits_val(s@.subrange(i as int, pos as int)),
            val <= cap,
        decreases len - pos,
    {
        let d = (s[pos] - 0x30) as u64;
        let ghost pre = s@.subrange(i as int, pos as int);
        let ghost ext = s@.subrange(i as int, pos + 1);
        proof {
            assert(ext =~= pre.push(s@[pos as int]));
            assert(ext.drop_last() =~= pre);
            assert(digits_val(ext) == val * 10 + d);
        }
        let exceeded: bool = if val > cap / 10 {
            true
        } else {
            let val2: u64 = val * 10;
            d > cap - val2
        };
        if exceeded {
            proof {
                // the whole run's value only grows from here, so the cap
                // is exceeded whatever follows
                lemma_digit_run_end(s@, pos + 1);
                let run = s@.subrange(i as int, j);
                let tail = s@.subrange(pos + 1, j);
                assert(digit_run_end(s@, pos as int) == digit_run_end(s@, pos + 1));
                assert(run =~= ext + tail);
                assert(all_digits(ext)) by {
                    assert(forall|k: int|
                        0 <= k < ext.len() ==> #[trigger] ext[k] == s@[i + k]);
                }
                assert(all_digits(tail)) by {
                    lemma_digit_run_end(s@, i as int);
                    assert(forall|k: int|
                        0 <= k < tail.len() ==> #[trigger] tail[k] == s@[pos + 1 + k]);
                }
                lemma_digits_val_extend(ext, tail);
                assert(digits_val(ext) > cap);
                assert(digits_val(run) > cap);
            }
            return None;
        }
        val = val * 10 + d;
        pos = pos + 1;
    }
    proof {
        assert(digit_run_end(s@, pos as int) == pos);
        assert(j == pos);
        assert(j > i) by {
            assert(is_digit(s@[i as int]));
            assert(digit_run_end(s@, i as int) == digit_run_end(s@, i + 1));
            lemma_digit_run_end(s@, i + 1);
        }
        lemma_digits_val_nonneg(s@.subrange(i as int, pos as int));
    }
    Some((val, pos))
}

} // verus!
