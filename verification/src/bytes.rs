//! Byte-sequence helpers shared by the codec and the router: equality,
//! splitting and joining on a separator byte, ASCII whitespace trimming,
//! and decimal formatting / parsing.

use vstd::prelude::*;
use vstd::slice::{slice_subrange, slice_to_vec};

verus! {

/// ASCII whitespace: space, tab, line feed, vertical tab, form feed,
/// carriage return.
pub open spec fn is_ws(b: u8) -> bool {
    b == 32 || (9 <= b && b <= 13)
}

// ---------------------------------------------------------------------------
// Splitting on a separator byte
// ---------------------------------------------------------------------------

/// Splitting `s` on `sep` yields one piece more than there are separators;
/// the empty sequence splits into one empty piece.
pub open spec fn split_bytes(s: Seq<u8>, sep: u8) -> Seq<Seq<u8>>
    decreases s.len(),
{
    if s.len() == 0 {
        seq![Seq::<u8>::empty()]
    } else if s[0] == sep {
        seq![Seq::<u8>::empty()] + split_bytes(s.skip(1), sep)
    } else {
        let rest = split_bytes(s.skip(1), sep);
        seq![seq![s[0]] + rest[0]] + rest.skip(1)
    }
}

pub proof fn lemma_split_len(s: Seq<u8>, sep: u8)
    ensures
        split_bytes(s, sep).len() >= 1,
    decreases s.len(),
{
    if s.len() != 0 {
        lemma_split_len(s.skip(1), sep);
    }
}

/// A sequence without the separator splits into just itself.
pub proof fn lemma_split_no_sep(s: Seq<u8>, sep: u8)
    requires
        forall|k: int| 0 <= k < s.len() ==> s[k] != sep,
    ensures
        split_bytes(s, sep) =~= seq![s],
    decreases s.len(),
{
    if s.len() == 0 {
        assert(s =~= Seq::<u8>::empty());
    } else {
        lemma_split_no_sep(s.skip(1), sep);
        assert(seq![s[0]] + s.skip(1) =~= s);
        assert(split_bytes(s, sep) =~= seq![s]);
    }
}

/// Splitting at the first separator: the part before it is the first piece
/// and the rest splits on its own.
pub proof fn lemma_split_at_first_sep(s: Seq<u8>, sep: u8, p: int)
    requires
        0 <= p < s.len(),
        s[p] == sep,
        forall|k: int| 0 <= k < p ==> s[k] != sep,
    ensures
        split_bytes(s, sep) =~= seq![s.take(p)] + split_bytes(s.skip(p + 1), sep),
    decreases p,
{
    if p == 0 {
        assert(s.take(0) =~= Seq::<u8>::empty());
        assert(s.skip(1) =~= s.skip(p + 1));
    } else {
        let t = s.skip(1);
        assert(t[p - 1] == sep);
        lemma_split_at_first_sep(t, sep, p - 1);
        lemma_split_len(t.skip(p), sep);
        assert(t.take(p - 1) =~= s.take(p).skip(1));
        assert(seq![s[0]] + t.take(p - 1) =~= s.take(p));
        assert(t.skip(p) =~= s.skip(p + 1));
    }
}

/// No piece of a split contains the separator.
pub proof fn lemma_split_pieces_no_sep(s: Seq<u8>, sep: u8)
    ensures
        forall|i: int, k: int|
            0 <= i < split_bytes(s, sep).len() && 0 <= k < split_bytes(s, sep)[i].len()
                ==> split_bytes(s, sep)[i][k] != sep,
    decreases s.len(),
{
    if s.len() == 0 {
    } else if s[0] == sep {
        lemma_split_pieces_no_sep(s.skip(1), sep);
        assert forall|i: int, k: int|
            0 <= i < split_bytes(s, sep).len() && 0 <= k < split_bytes(s, sep)[i].len()
                implies split_bytes(s, sep)[i][k] != sep by {
            if i > 0 {
                assert(split_bytes(s, sep)[i] == split_bytes(s.skip(1), sep)[i - 1]);
            }
        }
    } else {
        lemma_split_pieces_no_sep(s.skip(1), sep);
        lemma_split_len(s.skip(1), sep);
        let rest = split_bytes(s.skip(1), sep);
        assert forall|i: int, k: int|
            0 <= i < split_bytes(s, sep).len() && 0 <= k < split_bytes(s, sep)[i].len()
                implies split_bytes(s, sep)[i][k] != sep by {
            if i == 0 {
                if k > 0 {
                    assert(split_bytes(s, sep)[0][k] == rest[0][k - 1]);
                }
            } else {
                assert(split_bytes(s, sep)[i] == rest[i]);
            }
        }
    }
}

/// Split a slice on a separator byte, keeping empty pieces.
pub fn split_all(s: &[u8], sep: u8) -> (r: Vec<Vec<u8>>)
    ensures
        r.deep_view() == split_bytes(s@, sep),
        r@.len() == split_bytes(s@, sep).len(),
        forall|k: int| 0 <= k < r@.len() ==> (#[trigger] r@[k])@ == split_bytes(s@, sep)[k],
{
    let ghost whole = s@;
    let mut r: Vec<Vec<u8>> = Vec::new();
    let mut start: usize = 0;
    let mut i: usize = 0;
    proof {
        assert(whole.skip(0) =~= whole);
        assert(r.deep_view() + split_bytes(whole, sep) =~= split_bytes(whole, sep));
    }
    while i < s.len()
        invariant
            start <= i <= s.len(),
            whole == s@,
            forall|k: int| start <= k < i ==> s@[k] != sep,
            split_bytes(whole, sep) == r.deep_view() + split_bytes(whole.skip(start as int), sep),
        decreases s.len() - i,
    {
        if s[i] == sep {
            let piece = slice_to_vec(slice_subrange(s, start, i));
            let ghost piecev = piece@;
            let ghost r_old = r.deep_view();
            r.push(piece);
            proof {
                let t = whole.skip(start as int);
                lemma_split_at_first_sep(t, sep, i - start);
                assert(t.take(i - start) =~= whole.subrange(start as int, i as int));
                assert(t.skip(i - start + 1) =~= whole.skip(i + 1));
                assert(r.deep_view() =~~= r_old.push(piecev));
                assert(r_old + split_bytes(t, sep)
                    =~= r.deep_view() + split_bytes(whole.skip(i + 1), sep));
            }
            start = i + 1;
        }
        i += 1;
    }
    let last = slice_to_vec(slice_subrange(s, start, s.len()));
    let ghost lastv = last@;
    let ghost r_old = r.deep_view();
    r.push(last);
    proof {
        let t = whole.skip(start as int);
        lemma_split_no_sep(t, sep);
        assert(lastv =~= t);
        assert(r.deep_view() =~~= r_old.push(t));
        assert(r_old + split_bytes(t, sep) =~= r.deep_view());
        assert forall|k: int| 0 <= k < r@.len() implies (#[trigger] r@[k])@ == split_bytes(
            whole,
            sep,
        )[k] by {
            assert(r.deep_view()[k] == r@[k].deep_view());
            assert(r@[k].deep_view() =~= r@[k]@);
        }
    }
    r
}

// ---------------------------------------------------------------------------
// Joining with a separator byte
// ---------------------------------------------------------------------------

/// Concatenate pieces with a separator byte between them.
pub open spec fn join_bytes(pieces: Seq<Seq<u8>>, sep: u8) -> Seq<u8>
    decreases pieces.len(),
{
    if pieces.len() == 0 {
        Seq::<u8>::empty()
    } else if pieces.len() == 1 {
        pieces[0]
    } else {
        pieces[0] + seq![sep] + join_bytes(pieces.skip(1), sep)
    }
}

/// Join the pieces of `segs` from index `from` on, separated by `sep`.
pub fn join_from(segs: &Vec<Vec<u8>>, from: usize, sep: u8) -> (r: Vec<u8>)
    requires
        from <= segs@.len(),
    ensures
        r@ == join_bytes(segs.deep_view().skip(from as int), sep),
    decreases segs@.len() - from,
{
    if from == segs.len() {
        let r: Vec<u8> = Vec::new();
        proof {
            assert(segs.deep_view().skip(from as int) =~= Seq::<Seq<u8>>::empty());
        }
        r
    } else if from + 1 == segs.len() {
        let r = segs[from].clone();
        proof {
            assert(r@ =~= segs.deep_view()[from as int]);
            assert(segs.deep_view().skip(from as int).len() == 1);
            assert(segs.deep_view().skip(from as int)[0] == segs.deep_view()[from as int]);
        }
        r
    } else {
        let mut r = segs[from].clone();
        proof {
            assert(r@ =~= segs.deep_view()[from as int]);
        }
        r.push(sep);
        let mut rest = join_from(segs, from + 1, sep);
        r.append(&mut rest);
        proof {
            let dv = segs.deep_view();
            assert(dv.skip(from as int).len() >= 2);
            assert(dv.skip(from as int)[0] == dv[from as int]);
            assert(dv.skip(from as int).skip(1) =~= dv.skip(from as int + 1));
            assert(r@ =~= dv[from as int] + seq![sep] + join_bytes(dv.skip(from as int + 1), sep));
        }
        r
    }
}

// ---------------------------------------------------------------------------
// ASCII whitespace trimming
// ---------------------------------------------------------------------------

pub open spec fn trim_front(s: Seq<u8>) -> Seq<u8>
    decreases s.len(),
{
    if s.len() > 0 && is_ws(s[0]) {
        trim_front(s.skip(1))
    } else {
        s
    }
}

pub open spec fn trim_back(s: Seq<u8>) -> Seq<u8>
    decreases s.len(),
{
    if s.len() > 0 && is_ws(s[s.len() - 1]) {
        trim_back(s.take(s.len() - 1))
    } else {
        s
    }
}

/// `s` without leading and trailing ASCII whitespace.
pub open spec fn trimmed(s: Seq<u8>) -> Seq<u8> {
    trim_back(trim_front(s))
}

pub proof fn lemma_trim_front_skip(s: Seq<u8>, lo: int)
    requires
        0 <= lo <= s.len(),
        forall|k: int| 0 <= k < lo ==> is_ws(s[k]),
        lo == s.len() || !is_ws(s[lo]),
    ensures
        trim_front(s) == s.skip(lo),
    decreases lo,
{
    if lo == 0 {
        assert(s.skip(0) =~= s);
    } else {
        lemma_trim_front_skip(s.skip(1), lo - 1);
        assert(s.skip(1).skip(lo - 1) =~= s.skip(lo));
    }
}

pub proof fn lemma_trim_back_take(s: Seq<u8>, hi: int)
    requires
        0 <= hi <= s.len(),
        forall|k: int| hi <= k < s.len() ==> is_ws(s[k]),
        hi == 0 || !is_ws(s[hi - 1]),
    ensures
        trim_back(s) == s.take(hi),
    decreases s.len() - hi,
{
    if hi == s.len() {
        assert(s.take(hi) =~= s);
    } else {
        lemma_trim_back_take(s.take(s.len() - 1), hi);
    }
}

/// A sequence with no whitespace at either end is already trimmed.
pub proof fn lemma_trimmed_id(s: Seq<u8>)
    requires
        s.len() == 0 || (!is_ws(s[0]) && !is_ws(s[s.len() - 1])),
    ensures
        trimmed(s) == s,
{
    lemma_trim_front_skip(s, 0);
    assert(s.skip(0) =~= s);
    lemma_trim_back_take(s, s.len() as int);
    assert(s.take(s.len() as int) =~= s);
}

/// Copy `s` without its leading and trailing ASCII whitespace.
pub fn trim_slice(s: &[u8]) -> (r: Vec<u8>)
    ensures
        r@ == trimmed(s@),
{
    let mut lo: usize = 0;
    while lo < s.len() && (s[lo] == 32 || (9 <= s[lo] && s[lo] <= 13))
        invariant
            lo <= s.len(),
            forall|k: int| 0 <= k < lo ==> is_ws(s@[k]),
        decreases s.len() - lo,
    {
        lo += 1;
    }
    let mut hi: usize = s.len();
    while hi > lo && (s[hi - 1] == 32 || (9 <= s[hi - 1] && s[hi - 1] <= 13))
        invariant
            lo <= hi <= s.len(),
            forall|k: int| 0 <= k < lo ==> is_ws(s@[k]),
            forall|k: int| hi <= k < s.len() ==> is_ws(s@[k]),
        decreases hi,
    {
        hi -= 1;
    }
    proof {
        lemma_trim_front_skip(s@, lo as int);
        let t = s@.skip(lo as int);
        lemma_trim_back_take(t, hi - lo);
        assert(t.take(hi - lo) =~= s@.subrange(lo as int, hi as int));
    }
    slice_to_vec(slice_subrange(s, lo, hi))
}

// ---------------------------------------------------------------------------
// Miscellaneous
// ---------------------------------------------------------------------------

pub open spec fn starts_with(s: Seq<u8>, prefix: Seq<u8>) -> bool {
    s.len() >= prefix.len() && s.take(prefix.len() as int) == prefix
}

/// Compare two byte slices for equality of contents.
pub fn bytes_eq(a: &[u8], b: &[u8]) -> (r: bool)
    ensures
        r == (a@ == b@),
{
    if a.len() != b.len() {
        assert(a@.len() != b@.len());
        return false;
    }
    let mut i: usize = 0;
    while i < a.len()
        invariant
            i <= a.len(),
            a@.len() == b@.len(),
            forall|j: int| 0 <= j < i ==> a@[j] == b@[j],
        decreases a.len() - i,
    {
        if a[i] != b[i] {
            return false;
        }
        i += 1;
    }
    proof {
        assert(a@ =~= b@);
    }
    true
}

/// Index of the first occurrence of `sep` in `s`, if any.
pub fn find_first(s: &[u8], sep: u8) -> (r: Option<usize>)
    ensures
        match r {
            Some(i) => i < s@.len() && s@[i as int] == sep
                && forall|k: int| 0 <= k < i ==> s@[k] != sep,
            None => forall|k: int| 0 <= k < s@.len() ==> s@[k] != sep,
        },
{
    let mut i: usize = 0;
    while i < s.len()
        invariant
            i <= s.len(),
            forall|k: int| 0 <= k < i ==> s@[k] != sep,
        decreases s.len() - i,
    {
        if s[i] == sep {
            return Some(i);
        }
        i += 1;
    }
    None
}

// ---------------------------------------------------------------------------
// Decimal formatting and parsing
// ---------------------------------------------------------------------------

/// The decimal digits of `n`, most significant first.
pub open spec fn dec_bytes(n: nat) -> Seq<u8>
    decreases n,
{
    if n < 10 {
        seq![(48 + n) as u8]
    } else {
        dec_bytes(n / 10).push((48 + n % 10) as u8)
    }
}

/// Non-empty and all ASCII digits.
pub open spec fn is_dec_digits(s: Seq<u8>) -> bool {
    s.len() > 0 && forall|k: int| 0 <= k < s.len() ==> 48 <= #[trigger] s[k] <= 57
}

/// The value of a digit string, most significant digit first.
pub open spec fn dec_value(s: Seq<u8>) -> int
    decreases s.len(),
{
    if s.len() == 0 {
        0
    } else {
        dec_value(s.drop_last()) * 10 + (s.last() - 48)
    }
}

pub proof fn lemma_dec_bytes_digits(n: nat)
    ensures
        is_dec_digits(dec_bytes(n)),
    decreases n,
{
    if n >= 10 {
        lemma_dec_bytes_digits(n / 10);
    }
}

/// Formatting then reading a decimal gives the number back.
pub proof fn lemma_dec_round_trip(n: nat)
    ensures
        dec_value(dec_bytes(n)) == n,
    decreases n,
{
    if n < 10 {
        assert((48 + n) as u8 == 48 + n);
        assert(dec_value(Seq::<u8>::empty()) == 0);
        assert(dec_bytes(n).drop_last() =~= Seq::<u8>::empty());
    } else {
        lemma_dec_round_trip(n / 10);
        assert((48 + n % 10) as u8 == 48 + n % 10);
        assert(dec_bytes(n).drop_last() =~= dec_bytes(n / 10));
        assert(n / 10 * 10 + n % 10 == n);
    }
}

pub proof fn lemma_dec_value_take_succ(s: Seq<u8>, i: int)
    requires
        0 <= i < s.len(),
    ensures
        dec_value(s.take(i + 1)) == dec_value(s.take(i)) * 10 + (s[i] - 48),
{
    assert(s.take(i + 1).drop_last() =~= s.take(i));
    assert(s.take(i + 1).last() == s[i]);
}

pub proof fn lemma_dec_value_nonneg(s: Seq<u8>)
    requires
        forall|k: int| 0 <= k < s.len() ==> 48 <= s[k],
    ensures
        dec_value(s) >= 0,
    decreases s.len(),
{
    if s.len() > 0 {
        lemma_dec_value_nonneg(s.drop_last());
    }
}

/// Reading more digits never makes the value smaller.
pub proof fn lemma_dec_value_take_le(s: Seq<u8>, i: int)
    requires
        0 <= i <= s.len(),
        forall|k: int| 0 <= k < s.len() ==> 48 <= s[k],
    ensures
        dec_value(s.take(i)) <= dec_value(s),
    decreases s.len() - i,
{
    if i == s.len() {
        assert(s.take(i) =~= s);
    } else {
        lemma_dec_value_take_succ(s, i);
        lemma_dec_value_nonneg(s.take(i));
        lemma_dec_value_take_le(s, i + 1);
    }
}

/// Format `n` in decimal, most significant digit first.
pub fn dec_digits(n: usize) -> (r: Vec<u8>)
    ensures
        r@ == dec_bytes(n as nat),
    decreases n,
{
    if n < 10 {
        let mut r: Vec<u8> = Vec::new();
        r.push(48 + (n as u8));
        proof {
            assert(r@ =~= dec_bytes(n as nat));
        }
        r
    } else {
        let mut r = dec_digits(n / 10);
        r.push(48 + ((n % 10) as u8));
        r
    }
}

/// Parse a decimal digit string; `None` on a malformed string or on a value
/// that does not fit in `usize`.
pub fn parse_dec(s: &[u8]) -> (r: Option<usize>)
    ensures
        match r {
            Some(n) => is_dec_digits(s@) && dec_value(s@) == n as int,
            None => !is_dec_digits(s@) || dec_value(s@) > usize::MAX as int,
        },
{
    if s.len() == 0 {
        return None;
    }
    let mut acc: usize = 0;
    let mut i: usize = 0;
    while i < s.len()
        invariant
            i <= s.len(),
            s@.len() > 0,
            forall|k: int| 0 <= k < i ==> 48 <= #[trigger] s@[k] <= 57,
            acc as int == dec_value(s@.take(i as int)),
        decreases s.len() - i,
    {
        let b = s[i];
        if !(48 <= b && b <= 57) {
            return None;
        }
        let d = (b - 48) as usize;
        proof {
            lemma_dec_value_take_succ(s@, i as int);
        }
        match acc.checked_mul(10) {
            Some(m) => {
                match m.checked_add(d) {
                    Some(next) => {
                        acc = next;
                    },
                    None => {
                        proof {
                            if is_dec_digits(s@) {
                                lemma_dec_value_take_le(s@, i as int + 1);
                            }
                        }
                        return None;
                    },
                }
            },
            None => {
                proof {
                    if is_dec_digits(s@) {
                        lemma_dec_value_take_le(s@, i as int + 1);
                    }
                }
                return None;
            },
        }
        i += 1;
    }
    proof {
        assert(s@.take(i as int) =~= s@);
    }
    Some(acc)
}

} // verus!
