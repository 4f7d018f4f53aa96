//! The address codec.
//!
//! A cell is identified by a zero-based (column, row) pair.  Its canonical
//! textual name is the column written in spreadsheet-style base-26 letters
//! (`A`..`Z`, `AA`, ...) followed by the one-based row number in decimal:
//! column 1, row 11 is `"B12"`.  Encoding and decoding are exact inverses,
//! and only canonical names decode: `"A01"`, `"a1"` and `"A0"` name no cell.
//!
//! Internally one cell is keyed by a single `u64` that packs the column into
//! the high half and the row into the low half.

use vstd::prelude::*;

verus! {

/// The packed key of the cell at (`col`, `row`).
pub open spec fn key_of(col: u32, row: u32) -> u64 {
    ((col as int) * 0x1_0000_0000 + (row as int)) as u64
}

/// Packs a (column, row) pair into its `u64` key.
pub fn cell_key(col: u32, row: u32) -> (k: u64)
    ensures
        k == key_of(col, row),
{
    (col as u64) * 0x1_0000_0000 + (row as u64)
}

/// Distinct (column, row) pairs have distinct keys: the packing is injective.
pub proof fn lemma_key_injective(c1: u32, r1: u32, c2: u32, r2: u32)
    requires
        key_of(c1, r1) == key_of(c2, r2),
    ensures
        c1 == c2 && r1 == r2,
{
    assert((c1 as int) * 0x1_0000_0000 + (r1 as int) == (c2 as int) * 0x1_0000_0000 + (r2 as int));
    assert(c1 == c2 && r1 == r2) by (nonlinear_arith)
        requires
            (c1 as int) * 0x1_0000_0000 + (r1 as int) == (c2 as int) * 0x1_0000_0000 + (r2 as int),
            r1 < 0x1_0000_0000 && r2 < 0x1_0000_0000,
    ;
}

/// Whether `c` is an upper-case column letter.
pub open spec fn is_upper(c: char) -> bool {
    'A' <= c && c <= 'Z'
}

/// Whether `c` is a decimal digit.
pub open spec fn is_digit(c: char) -> bool {
    '0' <= c && c <= '9'
}

/// The bijective base-26 spelling of `v >= 1`: 1 is `A`, 26 is `Z`,
/// 27 is `AA`.
pub open spec fn letters_of(v: nat) -> Seq<char>
    decreases v,
{
    if v == 0 {
        Seq::empty()
    } else if v <= 26 {
        seq![(('A' as u8) + ((v - 1) as u8)) as char]
    } else {
        letters_of((((v - 1) as int) / 26) as nat).push(
            (('A' as u8) + ((((v - 1) as int) % 26) as u8)) as char,
        )
    }
}

/// The decimal spelling of `v`, with no leading zeros for `v >= 1`.
pub open spec fn digits_of(v: nat) -> Seq<char>
    decreases v,
{
    if v < 10 {
        seq![(('0' as u8) + (v as u8)) as char]
    } else {
        digits_of((v / 10) as nat).push((('0' as u8) + ((v % 10) as u8)) as char)
    }
}

/// The canonical name of the cell at (`col`, `row`).
pub open spec fn addr_chars(col: u32, row: u32) -> Seq<char> {
    letters_of(col as nat + 1) + digits_of(row as nat + 1)
}

/// The value a sequence of column letters denotes, read left to right.
pub open spec fn letters_val(s: Seq<char>) -> int
    decreases s.len(),
{
    if s.len() == 0 {
        0
    } else {
        letters_val(s.drop_last()) * 26 + (s.last() as int - 'A' as int + 1)
    }
}

/// The value a sequence of decimal digits denotes, read left to right.
pub open spec fn digits_val(s: Seq<char>) -> int
    decreases s.len(),
{
    if s.len() == 0 {
        0
    } else {
        digits_val(s.drop_last()) * 10 + (s.last() as int - '0' as int)
    }
}

/// The length of the longest upper-case prefix of `t`.
pub open spec fn upper_prefix_len(t: Seq<char>) -> int
    decreases t.len(),
{
    if t.len() == 0 || !is_upper(t[0]) {
        0
    } else {
        1 + upper_prefix_len(t.drop_first())
    }
}

/// Parses a canonical cell name.  The letters prefix and the digits suffix
/// are read off, and the result stands only if re-encoding it gives back
/// exactly `t`: anything non-canonical parses to `None`.
pub open spec fn parse_corner(t: Seq<char>) -> Option<(u32, u32)> {
    let l = upper_prefix_len(t);
    if 1 <= l && l < t.len() && (forall|i: int| l <= i < t.len() ==> is_digit(t[i])) {
        let lv = letters_val(t.take(l));
        let dv = digits_val(t.skip(l));
        if 1 <= lv <= 0x1_0000_0000 && 1 <= dv <= 0x1_0000_0000 && t == addr_chars(
            (lv - 1) as u32,
            (dv - 1) as u32,
        ) {
            Some((((lv - 1) as u32), ((dv - 1) as u32)))
        } else {
            None
        }
    } else {
        None
    }
}

/// A parsed name re-encodes to itself: decoding is right-inverse to encoding.
pub proof fn lemma_parse_canonical(t: Seq<char>, col: u32, row: u32)
    requires
        parse_corner(t) == Some((col, row)),
    ensures
        addr_chars(col, row) == t,
{
}

/// Every character of `letters_of(v)` is an upper-case letter, and there is
/// at least one of them when `v >= 1`.
pub proof fn lemma_letters_shape(v: nat)
    requires
        v >= 1,
    ensures
        letters_of(v).len() >= 1,
        forall|i: int| 0 <= i < letters_of(v).len() ==> is_upper(#[trigger] letters_of(v)[i]),
    decreases v,
{
    if v > 26 {
        lemma_letters_shape((((v - 1) as int) / 26) as nat);
    }
}

/// Every character of `digits_of(v)` is a decimal digit.
pub proof fn lemma_digits_shape(v: nat)
    ensures
        digits_of(v).len() >= 1,
        forall|i: int| 0 <= i < digits_of(v).len() ==> is_digit(#[trigger] digits_of(v)[i]),
    decreases v,
{
    if v >= 10 {
        lemma_digits_shape((v / 10) as nat);
    }
}

/// Reading the letters of `v` back gives `v`.
pub proof fn lemma_letters_val_of(v: nat)
    requires
        v >= 1,
    ensures
        letters_val(letters_of(v)) == v,
    decreases v,
{
    if v <= 26 {
        let s = letters_of(v);
        assert(s =~= seq![(('A' as u8) + ((v - 1) as u8)) as char]);
        assert(s.drop_last() =~= Seq::<char>::empty());
        assert(letters_val(s.drop_last()) == 0);
        assert(s.last() as int - 'A' as int + 1 == v);
    } else {
        let q = (((v - 1) as int) / 26) as nat;
        let c = (('A' as u8) + ((((v - 1) as int) % 26) as u8)) as char;
        assert(0 <= ((v - 1) as int) % 26 < 26) by {
            vstd::arithmetic::div_mod::lemma_mod_bound((v - 1) as int, 26);
        }
        lemma_letters_val_of(q);
        assert(letters_of(v) =~= letters_of(q).push(c));
        assert(letters_of(v).drop_last() =~= letters_of(q));
        assert(letters_of(v).last() == c);
        assert(c as int - 'A' as int + 1 == ((v - 1) as int) % 26 + 1);
        assert((q as int) * 26 + ((v - 1) as int) % 26 == (v - 1) as int) by {
            vstd::arithmetic::div_mod::lemma_fundamental_div_mod((v - 1) as int, 26);
        }
    }
}

/// Reading the digits of `v` back gives `v`.
pub proof fn lemma_digits_val_of(v: nat)
    ensures
        digits_val(digits_of(v)) == v,
    decreases v,
{
    if v < 10 {
        let s = digits_of(v);
        assert(s =~= seq![(('0' as u8) + (v as u8)) as char]);
        assert(s.drop_last() =~= Seq::<char>::empty());
        assert(digits_val(s.drop_last()) == 0);
        assert(s.last() as int - '0' as int == v);
    } else {
        let q = (v / 10) as nat;
        let c = (('0' as u8) + ((v % 10) as u8)) as char;
        assert(0 <= (v as int) % 10 < 10) by {
            vstd::arithmetic::div_mod::lemma_mod_bound(v as int, 10);
        }
        lemma_digits_val_of(q);
        assert(digits_of(v) =~= digits_of(q).push(c));
        assert(digits_of(v).drop_last() =~= digits_of(q));
        assert(digits_of(v).last() == c);
        assert(c as int - '0' as int == (v as int) % 10);
        assert((q as int) * 10 + (v as int) % 10 == v as int) by {
            vstd::arithmetic::div_mod::lemma_fundamental_div_mod(v as int, 10);
        }
    }
}

/// `upper_prefix_len` is the unique split point: if the first `k` characters
/// of `t` are upper-case and the next one (if any) is not, the prefix length
/// is exactly `k`.
pub proof fn lemma_upper_prefix_is(t: Seq<char>, k: int)
    requires
        0 <= k <= t.len(),
        forall|i: int| 0 <= i < k ==> is_upper(t[i]),
        k < t.len() ==> !is_upper(t[k]),
    ensures
        upper_prefix_len(t) == k,
    decreases t.len(),
{
    if t.len() == 0 || !is_upper(t[0]) {
    } else {
        lemma_upper_prefix_is(t.drop_first(), k - 1);
    }
}

/// Decoding is left-inverse to encoding: the canonical name of any cell
/// parses back to exactly that cell.  Together with `lemma_parse_canonical`
/// this makes the codec a bijection between (column, row) pairs and
/// canonical names.
pub proof fn lemma_codec_roundtrip(col: u32, row: u32)
    ensures
        parse_corner(addr_chars(col, row)) == Some((col, row)),
{
    let lv = col as nat + 1;
    let dv = row as nat + 1;
    let ls = letters_of(lv);
    let ds = digits_of(dv);
    let t = addr_chars(col, row);
    lemma_letters_shape(lv);
    lemma_digits_shape(dv);
    assert(!is_digit(ls[0]) && !is_upper(ds[0]));
    lemma_upper_prefix_is(t, ls.len() as int);
    assert(t.take(ls.len() as int) =~= ls);
    assert(t.skip(ls.len() as int) =~= ds);
    lemma_letters_val_of(lv);
    lemma_digits_val_of(dv);
}

/// One step of reading a letters value left to right.
pub proof fn lemma_letters_val_step(t: Seq<char>, k: int)
    requires
        0 <= k < t.len(),
    ensures
        letters_val(t.take(k + 1)) == letters_val(t.take(k)) * 26 + (t[k] as int - 'A' as int + 1),
{
    assert(t.take(k + 1).drop_last() =~= t.take(k));
    assert(t.take(k + 1).last() == t[k]);
}

/// One step of reading a digits value left to right.
pub proof fn lemma_digits_val_step(t: Seq<char>, k: int)
    requires
        0 <= k < t.len(),
    ensures
        digits_val(t.take(k + 1)) == digits_val(t.take(k)) * 10 + (t[k] as int - '0' as int),
{
    assert(t.take(k + 1).drop_last() =~= t.take(k));
    assert(t.take(k + 1).last() == t[k]);
}

/// The value of an upper-case prefix of length `j` is non-negative, and at
/// least 1 once `j >= 1`.
pub proof fn lemma_letters_val_nonneg(t: Seq<char>, j: int)
    requires
        0 <= j <= t.len(),
        forall|x: int| 0 <= x < j ==> is_upper(t[x]),
    ensures
        0 <= letters_val(t.take(j)),
        j >= 1 ==> 1 <= letters_val(t.take(j)),
    decreases j,
{
    if j == 0 {
        assert(t.take(0) =~= Seq::<char>::empty());
    } else {
        lemma_letters_val_nonneg(t, j - 1);
        lemma_letters_val_step(t, j - 1);
    }
}

/// The value of an upper-case prefix grows with its length.
pub proof fn lemma_letters_val_mono(t: Seq<char>, i: int, j: int)
    requires
        0 <= i <= j <= t.len(),
        forall|x: int| 0 <= x < j ==> is_upper(t[x]),
    ensures
        letters_val(t.take(i)) <= letters_val(t.take(j)),
    decreases j - i,
{
    if i < j {
        lemma_letters_val_mono(t, i, j - 1);
        lemma_letters_val_nonneg(t, j - 1);
        lemma_letters_val_step(t, j - 1);
    }
}

/// The value of an all-digits prefix of length `j` is non-negative.
pub proof fn lemma_digits_val_nonneg(t: Seq<char>, j: int)
    requires
        0 <= j <= t.len(),
        forall|x: int| 0 <= x < j ==> is_digit(t[x]),
    ensures
        0 <= digits_val(t.take(j)),
    decreases j,
{
    if j == 0 {
        assert(t.take(0) =~= Seq::<char>::empty());
    } else {
        lemma_digits_val_nonneg(t, j - 1);
        lemma_digits_val_step(t, j - 1);
    }
}

/// The value of an all-digits prefix grows with its length.
pub proof fn lemma_digits_val_mono(t: Seq<char>, i: int, j: int)
    requires
        0 <= i <= j <= t.len(),
        forall|x: int| 0 <= x < j ==> is_digit(t[x]),
    ensures
        digits_val(t.take(i)) <= digits_val(t.take(j)),
    decreases j - i,
{
    if i < j {
        lemma_digits_val_mono(t, i, j - 1);
        lemma_digits_val_nonneg(t, j - 1);
        lemma_digits_val_step(t, j - 1);
    }
}

/// Every character of `t` up to its upper-case prefix length is upper-case,
/// and the prefix is maximal.
pub proof fn lemma_upper_prefix_char(t: Seq<char>)
    ensures
        0 <= upper_prefix_len(t) <= t.len(),
        forall|i: int| 0 <= i < upper_prefix_len(t) ==> is_upper(t[i]),
        upper_prefix_len(t) < t.len() ==> !is_upper(t[upper_prefix_len(t)]),
    decreases t.len(),
{
    if t.len() > 0 && is_upper(t[0]) {
        let d = t.drop_first();
        lemma_upper_prefix_char(d);
        assert forall|i: int| 0 <= i < upper_prefix_len(t) implies is_upper(t[i]) by {
            if i >= 1 {
                assert(is_upper(d[i - 1]));
                assert(d[i - 1] == t[i]);
            }
        }
        if upper_prefix_len(t) < t.len() {
            assert(d[upper_prefix_len(d)] == t[upper_prefix_len(t)]);
        }
    }
}

/// Relies on `String`'s `FromIterator` impl: collecting characters builds
/// the string holding exactly those characters.
#[verifier::external_body]
fn chars_to_string(v: &Vec<char>) -> (s: String)
    ensures
        s@ == v@,
{
    v.iter().collect()
}

/// The column letters of `col`, as characters.
fn letters_vec(col: u32) -> (v: Vec<char>)
    ensures
        v@ == letters_of(col as nat + 1),
{
    let mut v: Vec<char> = Vec::new();
    let mut n: u64 = col as u64 + 1;
    let ghost n0: nat = n as nat;
    proof {
        assert(letters_of(n0) =~= letters_of(n0) + v@);
    }
    while n > 0
        invariant
            n <= n0,
            letters_of(n0) == (if n > 0 {
                letters_of(n as nat)
            } else {
                Seq::<char>::empty()
            }) + v@,
        decreases n,
    {
        let rem: u64 = (n - 1) % 26;
        let c: char = (('A' as u8) + rem as u8) as char;
        proof {
            let m = n as nat;
            let q = (((m - 1) as int) / 26) as nat;
            assert(0 <= ((m - 1) as int) % 26 < 26);
            assert(c == (('A' as u8) + ((((m - 1) as int) % 26) as u8)) as char);
            if m <= 26 {
                assert(q == 0);
                assert(letters_of(m) =~= Seq::<char>::empty().push(c));
            } else {
                assert(q >= 1);
                assert(letters_of(m) =~= letters_of(q).push(c));
            }
            assert(letters_of(m) + v@ =~= (if q > 0 {
                letters_of(q)
            } else {
                Seq::<char>::empty()
            }) + (seq![c] + v@));
        }
        v.insert(0, c);
        n = (n - 1) / 26;
    }
    v
}

/// The decimal row digits of `row`, as characters.
fn digits_vec(row: u32) -> (v: Vec<char>)
    ensures
        v@ == digits_of(row as nat + 1),
{
    let mut v: Vec<char> = Vec::new();
    let mut n: u64 = row as u64 + 1;
    let ghost n0: nat = n as nat;
    let mut done: bool = false;
    proof {
        assert(digits_of(n0) =~= digits_of(n0) + v@);
    }
    while !done
        invariant
            n <= n0,
            done ==> n == 0,
            digits_of(n0) == (if !done {
                digits_of(n as nat)
            } else {
                Seq::<char>::empty()
            }) + v@,
        decreases n, !done as int,
    {
        let rem: u64 = n % 10;
        let c: char = (('0' as u8) + rem as u8) as char;
        proof {
            let m = n as nat;
            let q = (m / 10) as nat;
            assert(0 <= (m as int) % 10 < 10);
            assert(c == (('0' as u8) + (((m as int) % 10) as u8)) as char);
            if m < 10 {
                assert(digits_of(m) =~= Seq::<char>::empty().push(c));
            } else {
                assert(q >= 1);
                assert(digits_of(m) =~= digits_of(q).push(c));
            }
            assert(digits_of(m) + v@ =~= (if m >= 10 {
                digits_of(q)
            } else {
                Seq::<char>::empty()
            }) + (seq![c] + v@));
        }
        v.insert(0, c);
        if n < 10 {
            done = true;
            n = 0;
        } else {
            n = n / 10;
        }
    }
    v
}

/// The canonical textual name of the cell at (`col`, `row`).
pub fn cell_name(col: u32, row: u32) -> (s: String)
    ensures
        s@ == addr_chars(col, row),
{
    let mut v = letters_vec(col);
    let mut d = digits_vec(row);
    v.append(&mut d);
    chars_to_string(&v)
}

/// Parses a canonical cell name such as `"B12"` back to its zero-based
/// (column, row) pair.  Exactly the canonical names parse: the result is
/// `Some` if and only if `t` is `cell_name(col, row)` for some cell.
#[verifier::loop_isolation(false)]
pub fn parse_cell_name(t: &str) -> (r: Option<(u32, u32)>)
    ensures
        r == parse_corner(t@),
{
    let n: usize = t.unicode_len();
    proof {
        lemma_upper_prefix_char(t@);
    }
    // read the column letters, left to right
    let mut k: usize = 0;
    let mut lv: u64 = 0;
    let mut stop: bool = false;
    while !stop
        invariant
            0 <= k <= n,
            n == t@.len(),
            forall|i: int| 0 <= i < k ==> is_upper(t@[i]),
            stop ==> (k == n || !is_upper(t@[k as int])),
            lv == letters_val(t@.take(k as int)),
            lv <= 0x1_0000_0000,
        decreases n - k, !stop as int,
    {
        if k == n {
            stop = true;
        } else {
            let c: char = t.get_char(k);
            let u: u32 = c as u32;
            if u >= 65 && u <= 90 {
                proof {
                    lemma_letters_val_step(t@, k as int);
                }
                lv = lv * 26 + ((u - 65) as u64 + 1);
                k = k + 1;
                if lv > 0x1_0000_0000 {
                    proof {
                        lemma_upper_prefix_char(t@);
                        let l = upper_prefix_len(t@);
                        if l < k {
                            assert(is_upper(t@[l]));
                            assert(false);
                        }
                        lemma_letters_val_mono(t@, k as int, l);
                    }
                    return None;
                }
            } else {
                stop = true;
            }
        }
    }
    proof {
        lemma_upper_prefix_is(t@, k as int);
    }
    if k == 0 || k == n {
        return None;
    }
    // read the row digits, left to right
    let mut i: usize = k;
    let mut dv: u64 = 0;
    while i < n
        invariant
            k <= i <= n,
            n == t@.len(),
            k >= 1,
            forall|x: int| k <= x < i ==> is_digit(t@[x]),
            dv == digits_val(t@.skip(k as int).take(i - k as int)),
            dv <= 0x1_0000_0000,
        decreases n - i,
    {
        let c: char = t.get_char(i);
        let u: u32 = c as u32;
        if !(u >= 48 && u <= 57) {
            return None;
        }
        proof {
            let s = t@.skip(k as int);
            assert(s[i - k as int] == t@[i as int]);
            lemma_digits_val_step(s, i - k as int);
        }
        dv = dv * 10 + (u - 48) as u64;
        i = i + 1;
        if dv > 0x1_0000_0000 {
            proof {
                let s = t@.skip(k as int);
                if forall|x: int| k <= x < n ==> is_digit(#[trigger] t@[x]) {
                    assert(forall|x: int| 0 <= x < s.len() ==> is_digit(#[trigger] s[x]));
                    lemma_digits_val_mono(s, i - k as int, s.len() as int);
                    assert(s.take(s.len() as int) =~= s);
                }
            }
            return None;
        }
    }
    proof {
        let s = t@.skip(k as int);
        assert(s.take(s.len() as int) =~= s);
        assert(dv == digits_val(s));
    }
    if dv == 0 {
        return None;
    }
    proof {
        lemma_letters_val_nonneg(t@, k as int);
        assert(lv >= 1);
    }
    // rebuild the canonical name and require an exact match
    let col: u32 = (lv - 1) as u32;
    let row: u32 = (dv - 1) as u32;
    let mut enc = letters_vec(col);
    let mut d = digits_vec(row);
    enc.append(&mut d);
    assert(enc@ == addr_chars(col, row));
    if enc.len() != n {
        proof {
            assert(t@ != addr_chars(col, row));
        }
        return None;
    }
    let mut j: usize = 0;
    while j < n
        invariant
            0 <= j <= n,
            n == t@.len(),
            n == enc@.len(),
            forall|x: int| 0 <= x < j ==> t@[x] == enc@[x],
        decreases n - j,
    {
        let a: char = t.get_char(j);
        if a != enc[j] {
            proof {
                assert(t@ != addr_chars(col, row));
            }
            return None;
        }
        j = j + 1;
    }
    proof {
        assert(t@ =~= enc@);
    }
    Some((col, row))
}

} // verus!
