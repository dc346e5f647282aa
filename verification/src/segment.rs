//! Log segments and their file names.
//!
//! A segment is one append-only log file, named `<N>.kvs.log` where `<N>` is
//! the segment id written in decimal with no leading zeros.  This module
//! holds the in-memory image of a segment and the verified rendering and
//! parsing of segment file names.

use vstd::prelude::*;
use vstd::arithmetic::div_mod::lemma_fundamental_div_mod_converse;
use vstd::string::{StrSliceExecFns, StringExecFns};
use vstd::utf8::{char_u32_cast, decode_utf8, encode_utf8, encode_utf8_decode_utf8,
    encode_utf8_valid_utf8, is_ascii_chars, is_ascii_chars_encode_utf8, valid_utf8};

use crate::codec::string_from_utf8;

verus! {

/// The in-memory image of one log segment: its id and its full contents.
#[derive(Debug, Clone)]
pub struct Segment {
    /// The segment id: the `<N>` of the file name `<N>.kvs.log`.
    pub log_number: u64,
    /// The bytes of the file, a concatenation of encoded records.
    pub data: Vec<u8>,
}

/// The character for one decimal digit.
pub open spec fn digit_char(d: int) -> char {
    if d == 0 {
        '0'
    } else if d == 1 {
        '1'
    } else if d == 2 {
        '2'
    } else if d == 3 {
        '3'
    } else if d == 4 {
        '4'
    } else if d == 5 {
        '5'
    } else if d == 6 {
        '6'
    } else if d == 7 {
        '7'
    } else if d == 8 {
        '8'
    } else {
        '9'
    }
}

/// Whether a character is a decimal digit.
pub open spec fn is_digit(c: char) -> bool {
    48 <= c as u32 && c as u32 <= 57
}

/// The value of a digit character.
pub open spec fn digit_of(c: char) -> int {
    c as u32 - 48
}

/// The decimal rendering of a number, most significant digit first, with no
/// leading zeros.
pub open spec fn decimal_digits(n: nat) -> Seq<char>
    decreases n,
    via decimal_digits_decreases
{
    if n < 10 {
        seq![digit_char(n as int)]
    } else {
        decimal_digits(n / 10).push(digit_char((n % 10) as int))
    }
}

#[via_fn]
proof fn decimal_digits_decreases(n: nat) {
    if n >= 10 {
        assert(n / 10 < n) by (nonlinear_arith)
            requires
                n >= 10,
        ;
    }
}

/// The number described by a digit sequence, most significant digit first.
pub open spec fn digits_value(ds: Seq<char>) -> int
    decreases ds.len(),
{
    if ds.len() == 0 {
        0
    } else {
        digits_value(ds.drop_last()) * 10 + digit_of(ds.last())
    }
}

/// Whether every character of the sequence is a decimal digit.
pub open spec fn all_digits(ds: Seq<char>) -> bool {
    forall|i: int| 0 <= i < ds.len() ==> is_digit(#[trigger] ds[i])
}

/// A digit sequence that some number renders to: nonempty, digits only, and
/// no leading zero unless it is exactly "0".
pub open spec fn canonical_digits(ds: Seq<char>) -> bool {
    &&& ds.len() >= 1
    &&& all_digits(ds)
    &&& ds.len() > 1 ==> ds[0] != '0'
}

proof fn lemma_digit_char_val(d: int)
    requires
        0 <= d < 10,
    ensures
        digit_char(d) as u32 == 48 + d,
        is_digit(digit_char(d)),
        '\0' <= digit_char(d) <= '\u{7f}',
{
}

proof fn lemma_digit_char_of(c: char)
    requires
        is_digit(c),
    ensures
        digit_char(digit_of(c)) == c,
{
    lemma_digit_char_val(digit_of(c));
    char_u32_cast(c, c as u32);
    char_u32_cast(digit_char(digit_of(c)), digit_char(digit_of(c)) as u32);
}

/// The rendering of any number is canonical, made of ASCII digits, and reads
/// back as the number itself.
pub proof fn lemma_decimal_canonical(n: nat)
    ensures
        canonical_digits(decimal_digits(n)),
        is_ascii_chars(decimal_digits(n)),
        digits_value(decimal_digits(n)) == n,
        decimal_digits(n)[0] == '0' ==> n == 0,
    decreases n,
{
    if n < 10 {
        lemma_digit_char_val(n as int);
        let ds = decimal_digits(n);
        assert(ds.len() == 1 && ds[0] == digit_char(n as int));
        assert(ds.drop_last() =~= Seq::<char>::empty());
        assert(digits_value(ds.drop_last()) == 0);
        assert(ds.last() == ds[0]);
        assert(digits_value(ds) == digit_of(ds[0]));
        if n != 0 && ds[0] == '0' {
            assert(ds[0] as u32 == 48 + n);
            assert('0' as u32 == 48);
            assert(false);
        }
    } else {
        lemma_decimal_canonical(n / 10);
        lemma_digit_char_val((n % 10) as int);
        let ds = decimal_digits(n);
        let prev = decimal_digits(n / 10);
        assert(ds.drop_last() =~= prev);
        assert(ds[0] == prev[0]);
        assert(n / 10 != 0) by (nonlinear_arith)
            requires
                n >= 10,
        ;
        assert(digits_value(ds) == (n / 10) * 10 + n % 10);
        assert((n / 10) * 10 + n % 10 == n) by (nonlinear_arith);
    }
}

proof fn lemma_value_pos(ds: Seq<char>)
    requires
        all_digits(ds),
        ds.len() >= 1,
        ds[0] != '0',
    ensures
        digits_value(ds) >= 1,
        ds.len() >= 2 ==> digits_value(ds) >= 10,
    decreases ds.len(),
{
    if ds.len() == 1 {
        if ds[0] as u32 == 48 {
            char_u32_cast(ds[0], 48);
            char_u32_cast('0', 48);
            assert(ds[0] == '0');
            assert(false);
        }
        assert(ds.drop_last() =~= Seq::<char>::empty());
        assert(digits_value(ds.drop_last()) == 0);
        assert(ds.last() == ds[0]);
        assert(digits_value(ds) == digit_of(ds[0]));
        assert(digit_of(ds[0]) >= 1);
    } else {
        let d = ds.drop_last();
        assert(d[0] == ds[0]);
        lemma_value_pos(d);
        assert(digits_value(ds) == digits_value(d) * 10 + digit_of(ds.last()));
        assert(digits_value(d) * 10 >= 10) by (nonlinear_arith)
            requires
                digits_value(d) >= 1,
        ;
        assert(digit_of(ds.last()) >= 0);
    }
}

proof fn lemma_value_nonneg(ds: Seq<char>)
    requires
        all_digits(ds),
    ensures
        digits_value(ds) >= 0,
    decreases ds.len(),
{
    if ds.len() > 0 {
        lemma_value_nonneg(ds.drop_last());
        assert(digits_value(ds.drop_last()) * 10 >= 0) by (nonlinear_arith)
            requires
                digits_value(ds.drop_last()) >= 0,
        ;
    }
}

/// Every canonical digit sequence is the rendering of the number it reads as.
pub proof fn lemma_digits_to_decimal(ds: Seq<char>)
    requires
        canonical_digits(ds),
    ensures
        digits_value(ds) >= 0,
        decimal_digits(digits_value(ds) as nat) == ds,
    decreases ds.len(),
{
    lemma_value_nonneg(ds);
    if ds.len() == 1 {
        let v = digit_of(ds[0]);
        assert(ds.drop_last() =~= Seq::<char>::empty());
        assert(digits_value(ds.drop_last()) == 0);
        assert(ds.last() == ds[0]);
        assert(digits_value(ds) == v);
        lemma_digit_char_of(ds[0]);
        assert(decimal_digits(v as nat) =~= ds);
    } else {
        let d = ds.drop_last();
        assert(d[0] == ds[0]);
        lemma_value_pos(ds);
        lemma_value_pos(d);
        lemma_value_nonneg(d);
        let vp = digits_value(d);
        let last = digit_of(ds.last());
        let v = digits_value(ds);
        assert(v == vp * 10 + last);
        assert(v >= 10) by (nonlinear_arith)
            requires
                vp >= 1,
                last >= 0,
                v == vp * 10 + last,
        ;
        lemma_fundamental_div_mod_converse(v, 10, vp, last);
        lemma_digits_to_decimal(d);
        assert(decimal_digits(v as nat) =~= decimal_digits(vp as nat).push(
            digit_char((v % 10) as int),
        ));
        lemma_digit_char_of(ds.last());
        assert(decimal_digits(v as nat) =~= ds);
    }
}

proof fn lemma_value_monotone(ds: Seq<char>, i: int)
    requires
        all_digits(ds),
        0 <= i <= ds.len(),
    ensures
        digits_value(ds.subrange(0, i)) <= digits_value(ds),
    decreases ds.len() - i,
{
    if i == ds.len() {
        assert(ds.subrange(0, i) =~= ds);
    } else {
        let a = ds.subrange(0, i);
        let b = ds.subrange(0, i + 1);
        assert(b.drop_last() =~= a);
        lemma_value_nonneg(a);
        assert(digits_value(b) == digits_value(a) * 10 + digit_of(b.last()));
        assert(digits_value(a) * 10 >= digits_value(a)) by (nonlinear_arith)
            requires
                digits_value(a) >= 0,
        ;
        assert(digit_of(b.last()) >= 0);
        lemma_value_monotone(ds, i + 1);
    }
}

/// The file name of the segment with id `n`.
pub open spec fn spec_log_name(n: nat) -> Seq<char> {
    decimal_digits(n) + ".kvs.log"@
}

/// The decimal rendering of a number as a string.
fn decimal_string(n: u64) -> (r: String)
    ensures
        r@ == decimal_digits(n as nat),
{
    let mut rev: Vec<u8> = Vec::new();
    let mut cur: u64 = n;
    while cur >= 10
        invariant
            decimal_digits(n as nat) =~= decimal_digits(cur as nat) + Seq::new(
                rev@.len(),
                |i: int| digit_char(rev@[rev@.len() - 1 - i] as int),
            ),
            forall|i: int| 0 <= i < rev@.len() ==> #[trigger] rev@[i] < 10,
        decreases cur,
    {
        let ghost prev_rev = rev@;
        let ghost prev_cur = cur;
        rev.push((cur % 10) as u8);
        cur = cur / 10;
        proof {
            assert(cur < prev_cur) by (nonlinear_arith)
                requires
                    prev_cur >= 10,
                    cur == prev_cur / 10,
            ;
            assert(decimal_digits(prev_cur as nat) =~= decimal_digits(cur as nat).push(
                digit_char((prev_cur % 10) as int),
            ));
            assert(decimal_digits(n as nat) =~= decimal_digits(cur as nat) + Seq::new(
                rev@.len(),
                |i: int| digit_char(rev@[rev@.len() - 1 - i] as int),
            ));
        }
    }
    let mut bytes: Vec<u8> = Vec::new();
    bytes.push((cur as u8) + 48);
    let mut i: usize = rev.len();
    while i > 0
        invariant
            i <= rev@.len(),
            forall|j: int| 0 <= j < rev@.len() ==> #[trigger] rev@[j] < 10,
            cur < 10,
            bytes@.len() == 1 + (rev@.len() - i),
            bytes@[0] == (cur as u8) + 48,
            forall|j: int| 1 <= j < bytes@.len() ==> #[trigger] bytes@[j] == rev@[rev@.len() - j]
                + 48,
        decreases i,
    {
        i = i - 1;
        bytes.push(rev[i] + 48);
    }
    let ghost cs = decimal_digits(n as nat);
    proof {
        lemma_decimal_canonical(n as nat);
        is_ascii_chars_encode_utf8(cs);
        assert(cs =~= decimal_digits(cur as nat) + Seq::new(
            rev@.len(),
            |i: int| digit_char(rev@[rev@.len() - 1 - i] as int),
        ));
        assert(decimal_digits(cur as nat) =~= seq![digit_char(cur as int)]);
        assert forall|j: int| 0 <= j < bytes@.len() implies #[trigger] encode_utf8(cs)[j]
            == bytes@[j] by {
            lemma_digit_char_val(cs[j] as u32 - 48);
            if j == 0 {
                lemma_digit_char_val(cur as int);
                assert(cs[0] == digit_char(cur as int));
            } else {
                assert(cs[j] == digit_char(rev@[rev@.len() - j] as int));
                lemma_digit_char_val(rev@[rev@.len() - j] as int);
            }
        }
        assert(bytes@ =~= encode_utf8(cs));
        encode_utf8_valid_utf8(cs);
        encode_utf8_decode_utf8(cs);
    }
    match string_from_utf8(bytes) {
        Some(s) => s,
        None => {
            proof {
                assert(false);
            }
            String::new()
        },
    }
}

/// The path of the segment file with the given id, under the given
/// directory: `<dir>/<id>.kvs.log`.
pub fn log_path(dir: &str, log_number: u64) -> (r: String)
    ensures
        r@ == dir@ + "/"@ + spec_log_name(log_number as nat),
{
    let digits = decimal_string(log_number);
    let mut s = String::from_str(dir);
    s.append("/");
    s.append(digits.as_str());
    s.append(".kvs.log");
    proof {
        assert(s@ =~= dir@ + "/"@ + spec_log_name(log_number as nat));
    }
    s
}

/// Parse a file name of the shape `<N>.kvs.log`; names of any other shape,
/// a leading zero included, yield `None`.
pub fn parse_log_name(name: &String) -> (r: Option<u64>)
    ensures
        r matches Some(n) ==> name@ == spec_log_name(n as nat),
        r is None ==> forall|n: u64| name@ != spec_log_name(n as nat),
{
    let m = name.as_str().unicode_len();
    proof {
        reveal_strlit(".kvs.log");
    }
    if m < 9 {
        proof {
            assert forall|n: u64| name@ != spec_log_name(n as nat) by {
                lemma_decimal_canonical(n as nat);
            }
        }
        return None;
    }
    let mut j: usize = 0;
    while j < 8
        invariant
            m == name@.len(),
            m >= 9,
            j <= 8,
            ".kvs.log"@.len() == 8,
            forall|jj: int| 0 <= jj < j ==> name@[m - 8 + jj] == #[trigger] ".kvs.log"@[jj],
        decreases 8 - j,
    {
        let c = name.as_str().get_char(m - 8 + j);
        let e = ".kvs.log".get_char(j);
        if c != e {
            proof {
                reveal_strlit(".kvs.log");
                assert forall|n: u64| name@ != spec_log_name(n as nat) by {
                    lemma_decimal_canonical(n as nat);
                    if name@ == spec_log_name(n as nat) {
                        let dl = decimal_digits(n as nat).len();
                        assert(dl + 8 == m);
                        assert(name@[dl + j] == ".kvs.log"@[j as int]);
                    }
                }
            }
            return None;
        }
        j = j + 1;
    }
    let ghost head = name@.subrange(0, m - 8);
    let first = name.as_str().get_char(0);
    if m > 9 && first == '0' {
        proof {
            reveal_strlit(".kvs.log");
            assert forall|n: u64| name@ != spec_log_name(n as nat) by {
                lemma_decimal_canonical(n as nat);
                if name@ == spec_log_name(n as nat) {
                    assert(decimal_digits(n as nat)[0] == name@[0]);
                    assert(n == 0);
                    assert(name@.len() == 9);
                }
            }
        }
        return None;
    }
    let mut i: usize = 0;
    let mut val: u64 = 0;
    while i < m - 8
        invariant
            m == name@.len(),
            m >= 9,
            i <= m - 8,
            head == name@.subrange(0, m - 8 as int),
            forall|ii: int| 0 <= ii < i ==> is_digit(#[trigger] head[ii]),
            val == digits_value(head.subrange(0, i as int)),
        decreases m - 8 - i,
    {
        let c = name.as_str().get_char(i);
        let u = c as u32;
        if u < 48 || u > 57 {
            proof {
                reveal_strlit(".kvs.log");
                assert(!is_digit(name@[i as int]));
                assert forall|n: u64| name@ != spec_log_name(n as nat) by {
                    lemma_decimal_canonical(n as nat);
                    if name@ == spec_log_name(n as nat) {
                        let dd = decimal_digits(n as nat);
                        assert(dd.len() + 8 == m);
                        assert(name@[i as int] == dd[i as int]);
                    }
                }
            }
            return None;
        }
        let d = (u - 48) as u64;
        if val > (u64::MAX - d) / 10 {
            proof {
                let p = head.subrange(0, i as int);
                let q = head.subrange(0, i + 1 as int);
                assert(q.drop_last() =~= p);
                lemma_value_nonneg(p);
                assert(digits_value(q) == val * 10 + d);
                assert(val * 10 + d > u64::MAX) by (nonlinear_arith)
                    requires
                        val > (u64::MAX - d) / 10,
                        d < 10,
                        val >= 0,
                ;
                reveal_strlit(".kvs.log");
                assert forall|n: u64| name@ != spec_log_name(n as nat) by {
                    lemma_decimal_canonical(n as nat);
                    if name@ == spec_log_name(n as nat) {
                        let dd = decimal_digits(n as nat);
                        assert(dd.len() + 8 == m);
                        assert(head =~= dd);
                        assert forall|ii: int| 0 <= ii < head.len() implies is_digit(
                            #[trigger] head[ii],
                        ) by {
                            assert(head[ii] == dd[ii]);
                        }
                        lemma_value_monotone(head, i + 1);
                        assert(digits_value(head) == n);
                    }
                }
            }
            return None;
        }
        proof {
            let p = head.subrange(0, i as int);
            let q = head.subrange(0, i + 1 as int);
            assert(q.drop_last() =~= p);
            lemma_value_nonneg(p);
            assert(val * 10 + d <= u64::MAX) by (nonlinear_arith)
                requires
                    val <= (u64::MAX - d) / 10,
                    d < 10,
                    val >= 0,
            ;
            assert(digits_value(q) == val * 10 + d);
        }
        val = val * 10 + d;
        i = i + 1;
    }
    proof {
        reveal_strlit(".kvs.log");
        assert(head.subrange(0, (m - 8) as int) =~= head);
        assert(canonical_digits(head)) by {
            if head.len() > 1 {
                assert(name@[0] != '0');
            }
        }
        lemma_digits_to_decimal(head);
        assert(name@ =~= head + ".kvs.log"@);
        assert(name@ == spec_log_name(val as nat));
    }
    Some(val)
}

/// Whether the ids are in strictly increasing order.
pub open spec fn sorted_strict(s: Seq<u64>) -> bool {
    forall|i: int, j: int| 0 <= i < j < s.len() ==> s[i] < s[j]
}

/// Insert an id into a strictly sorted list, keeping it sorted and
/// duplicate-free.
fn insert_sorted(v: &mut Vec<u64>, x: u64)
    requires
        sorted_strict(old(v)@),
    ensures
        sorted_strict(final(v)@),
        forall|y: u64| #[trigger] final(v)@.contains(y) <==> (old(v)@.contains(y) || y == x),
{
    let n = v.len();
    let mut i: usize = 0;
    while i < n
        invariant
            n == v@.len(),
            i <= n,
            v@ == old(v)@,
            sorted_strict(v@),
            forall|j: int| 0 <= j < i ==> #[trigger] v@[j] < x,
        decreases n - i,
    {
        if v[i] == x {
            proof {
                assert(v@.contains(x));
            }
            return;
        }
        if v[i] > x {
            let ghost prev = v@;
            v.insert(i, x);
            proof {
                let ghost ii = i as int;
                prev.insert_ensures(ii, x);
                assert(v@ =~= prev.subrange(0, ii).push(x) + prev.subrange(
                    ii,
                    prev.len() as int,
                ));
                let ghost cc = prev.subrange(0, ii).push(x) + prev.subrange(
                    ii,
                    prev.len() as int,
                );
                assert(v@ =~= cc);
                assert forall|a: int, b: int| 0 <= a < b < v@.len() implies #[trigger] v@[a]
                    < #[trigger] v@[b] by {
                    if a < i {
                        assert(v@[a] == cc[a] && cc[a] == prev.subrange(0, ii)[a]);
                    } else if a == i {
                        assert(v@[a] == cc[a] && cc[a] == x);
                    } else {
                        assert(v@[a] == cc[a] && cc[a] == prev.subrange(ii, prev.len() as int)[a
                            - ii - 1]);
                        assert(v@[a] == prev[a - 1]);
                    }
                    if b < i {
                        assert(v@[b] == cc[b] && cc[b] == prev.subrange(0, ii)[b]);
                    } else if b == i {
                        assert(v@[b] == cc[b] && cc[b] == x);
                    } else {
                        assert(v@[b] == cc[b] && cc[b] == prev.subrange(ii, prev.len() as int)[b
                            - ii - 1]);
                        assert(v@[b] == prev[b - 1]);
                    }
                    if a < i && b > i {
                        assert(prev[a] < prev[b - 1]);
                    } else if a == i && b > i {
                        assert(prev[ii] <= prev[b - 1]);
                    } else if a > i {
                        assert(prev[a - 1] < prev[b - 1]);
                    }
                }
                assert forall|y: u64| #[trigger] v@.contains(y) implies (prev.contains(y) || y
                    == x) by {
                    let k = choose|k: int| 0 <= k < v@.len() && v@[k] == y;
                    if k < i {
                        assert(prev[k] == y);
                    } else if k > i {
                        assert(v@[k] == prev.insert(i as int, x)[(k - 1) + 1]);
                        assert(prev[k - 1] == y);
                    }
                }
                assert forall|y: u64| (prev.contains(y) || y == x) implies #[trigger] v@.contains(
                    y,
                ) by {
                    if y == x {
                        assert(v@[i as int] == x);
                    } else {
                        let k = choose|k: int| 0 <= k < prev.len() && prev[k] == y;
                        if k < i {
                            assert(v@[k] == y);
                        } else {
                            assert(v@[k + 1] == prev.insert(i as int, x)[k + 1]);
                            assert(v@[k + 1] == y);
                        }
                    }
                }
            }
            return;
        }
        i = i + 1;
    }
    let ghost prev = v@;
    v.push(x);
    proof {
        assert forall|y: u64| #[trigger] v@.contains(y) implies (prev.contains(y) || y == x) by {
            let k = choose|k: int| 0 <= k < v@.len() && v@[k] == y;
            if k < prev.len() {
                assert(prev[k] == y);
            }
        }
        assert forall|y: u64| (prev.contains(y) || y == x) implies #[trigger] v@.contains(y) by {
            if y == x {
                assert(v@[prev.len() as int] == x);
            } else {
                let k = choose|k: int| 0 <= k < prev.len() && prev[k] == y;
                assert(v@[k] == y);
            }
        }
    }
}

/// The ids of the segment files among the given directory entries, in
/// ascending order.  Entries that are not of the shape `<N>.kvs.log` are
/// ignored silently.
pub fn get_log_numbers(names: &Vec<String>) -> (r: Vec<u64>)
    ensures
        sorted_strict(r@),
        forall|n: u64| #[trigger] r@.contains(n) <==> exists|i: int|
            0 <= i < names@.len() && #[trigger] names@[i]@ == spec_log_name(n as nat),
{
    let mut out: Vec<u64> = Vec::new();
    let mut i: usize = 0;
    while i < names.len()
        invariant
            i <= names@.len(),
            sorted_strict(out@),
            forall|n: u64| #[trigger] out@.contains(n) <==> exists|j: int|
                0 <= j < i && #[trigger] names@[j]@ == spec_log_name(n as nat),
        decreases names@.len() - i,
    {
        let ghost prev = out@;
        match parse_log_name(&names[i]) {
            Some(n) => {
                insert_sorted(&mut out, n);
                proof {
                    assert(names@[i as int]@ == spec_log_name(n as nat));
                    assert forall|y: u64| #[trigger] out@.contains(y) implies exists|j: int|
                        0 <= j < i + 1 && #[trigger] names@[j]@ == spec_log_name(y as nat) by {
                        if y == n {
                            assert(names@[i as int]@ == spec_log_name(y as nat));
                        } else {
                            assert(prev.contains(y));
                            let j = choose|j: int|
                                0 <= j < i && #[trigger] names@[j]@ == spec_log_name(y as nat);
                            assert(names@[j]@ == spec_log_name(y as nat));
                        }
                    }
                    assert forall|y: u64| (exists|j: int|
                        0 <= j < i + 1 && #[trigger] names@[j]@ == spec_log_name(y as nat))
                        implies #[trigger] out@.contains(y) by {
                        let j = choose|j: int|
                            0 <= j < i + 1 && #[trigger] names@[j]@ == spec_log_name(y as nat);
                        if j < i {
                            assert(prev.contains(y));
                        } else {
                            reveal_strlit(".kvs.log");
                            lemma_decimal_canonical(y as nat);
                            lemma_decimal_canonical(n as nat);
                            assert(j == i);
                            assert(names@[i as int]@ == spec_log_name(y as nat));
                            assert(spec_log_name(y as nat) == spec_log_name(n as nat));
                            assert(spec_log_name(y as nat).len() == decimal_digits(y as nat).len()
                                + 8);
                            assert(spec_log_name(n as nat).len() == decimal_digits(n as nat).len()
                                + 8);
                            assert(decimal_digits(y as nat).len() == decimal_digits(
                                n as nat,
                            ).len());
                            assert forall|kk: int|
                                0 <= kk < decimal_digits(y as nat).len() implies #[trigger] decimal_digits(
                                y as nat,
                            )[kk] == decimal_digits(n as nat)[kk] by {
                                assert(spec_log_name(y as nat)[kk] == spec_log_name(n as nat)[kk]);
                            }
                            assert(decimal_digits(y as nat) =~= decimal_digits(n as nat));
                            assert(digits_value(decimal_digits(y as nat)) == y);
                            assert(y == n);
                        }
                    }
                }
            },
            None => {
                proof {
                    assert forall|y: u64| #[trigger] out@.contains(y) <==> exists|j: int|
                        0 <= j < i + 1 && #[trigger] names@[j]@ == spec_log_name(y as nat) by {
                        assert(names@[i as int]@ != spec_log_name(y as nat));
                    }
                }
            },
        }
        i = i + 1;
    }
    out
}

} // verus!
