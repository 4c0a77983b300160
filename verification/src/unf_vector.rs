use vstd::prelude::*;
use crate::value::{float_wf, Column, FloatModel, FloatRepr, Value, ValueModel};

verus! {

// ---------------------------------------------------------------------------
// Canonical character forms, as mathematical functions.
// ---------------------------------------------------------------------------

/// The character for one decimal digit.
pub open spec fn digit_char(d: int) -> char {
    if d == 0 {
        '0'
    } else if d == 1 {
        '1'
    } else if d == 2 {
        '2'
    } else if d == 3 {
        '3'
    } else if d == 4 {
        '4'
    } else if d == 5 {
        '5'
    } else if d == 6 {
        '6'
    } else if d == 7 {
        '7'
    } else if d == 8 {
        '8'
    } else {
        '9'
    }
}

/// Decimal digits of `n`, most significant first; empty for 0.
pub open spec fn dec_rec(n: nat) -> Seq<char>
    decreases n,
{
    if n == 0 {
        Seq::empty()
    } else {
        dec_rec(n / 10).push(digit_char((n % 10) as int))
    }
}

/// The plain decimal form of a nonnegative integer: no padding, no
/// grouping, `"0"` for zero.
pub open spec fn dec_chars(n: nat) -> Seq<char> {
    if n == 0 {
        seq!['0']
    } else {
        dec_rec(n)
    }
}

/// The plain decimal form of a signed integer: a `-` sign exactly when
/// the value is negative.
pub open spec fn int_chars(i: int) -> Seq<char> {
    if i < 0 {
        seq!['-'] + dec_chars((-i) as nat)
    } else {
        dec_chars(i as nat)
    }
}

// ---------------------------------------------------------------------------
// Significant-figure rounding on the decimal decomposition.
// ---------------------------------------------------------------------------

/// A run of `k` zero digits.
pub open spec fn zero_digits(k: nat) -> Seq<u8> {
    Seq::new(k, |i: int| 0u8)
}

/// One added to a decimal digit string; carries ripple left, and a
/// carry out of the leftmost digit lengthens the string.
pub open spec fn inc_digits(m: Seq<u8>) -> Seq<u8>
    decreases m.len(),
{
    if m.len() == 0 {
        seq![1u8]
    } else if m.last() == 9 {
        inc_digits(m.drop_last()).push(0u8)
    } else {
        m.drop_last().push((m.last() + 1) as u8)
    }
}

/// The mantissa rounded to `d` significant figures, half away from
/// zero: a mantissa already short enough is unchanged; otherwise the
/// first dropped digit decides, and a carry across the whole kept
/// prefix shifts the leading `1` in (the exponent then grows by one,
/// see [`rounding_carries`]).
pub open spec fn rounded_mantissa(m: Seq<u8>, d: nat) -> Seq<u8> {
    if m.len() <= d {
        m
    } else {
        let kept = m.take(d as int);
        if m[d as int] >= 5 {
            let inc = inc_digits(kept);
            if inc.len() > d {
                inc.take(d as int)
            } else {
                inc
            }
        } else {
            kept
        }
    }
}

/// Whether rounding to `d` figures overflows into a new leading digit.
pub open spec fn rounding_carries(m: Seq<u8>, d: nat) -> bool {
    m.len() > d && m[d as int] >= 5 && inc_digits(m.take(d as int)).len() > d
}

/// The decimal exponent after rounding.
pub open spec fn rounded_exp(m: Seq<u8>, d: nat, e: int) -> int {
    if rounding_carries(m, d) {
        e + 1
    } else {
        e
    }
}

/// The mantissa extended with trailing zeros to exactly `d` digits.
pub open spec fn pad_digits(m: Seq<u8>, d: nat) -> Seq<u8> {
    if m.len() >= d {
        m
    } else {
        m + zero_digits((d - m.len()) as nat)
    }
}

/// Digit string rendered as characters.
pub open spec fn digit_chars_of(m: Seq<u8>) -> Seq<char> {
    m.map_values(|dg: u8| digit_char(dg as int))
}

/// The exponent part: a literal `e`, an explicit sign, and the decimal
/// magnitude with no superfluous leading zero.
pub open spec fn exp_chars(e: int) -> Seq<char> {
    if e >= 0 {
        seq!['e', '+'] + dec_chars(e as nat)
    } else {
        seq!['e', '-'] + dec_chars((-e) as nat)
    }
}

/// The canonical form of a floating-point value at `d` significant
/// figures: a sign character, one digit before the decimal point,
/// `d - 1` digits after it (the point is omitted when `d == 1`), and
/// the signed exponent.  Zero (the empty mantissa) renders with an
/// all-zero mantissa and exponent `+0`.
pub open spec fn float_chars(f: FloatModel, d: nat) -> Seq<char> {
    let full = pad_digits(rounded_mantissa(f.mantissa, d), d);
    let e = rounded_exp(f.mantissa, d, f.exp);
    let sign = if f.neg {
        '-'
    } else {
        '+'
    };
    seq![sign, digit_char(full[0] as int)] + (if d > 1 {
        seq!['.'] + digit_chars_of(full.skip(1))
    } else {
        Seq::empty()
    }) + exp_chars(e)
}

// ---------------------------------------------------------------------------
// The canonical string of one cell.
// ---------------------------------------------------------------------------

/// The canonical character string of one cell value, before truncation
/// and byte encoding.  Null encodes to the fixed sentinel string for
/// every column type; booleans to the literal pair `true` / `false`;
/// integers (dates and timestamps included) to their exact decimal
/// form; floats to normalized scientific form at `d` significant
/// figures; text to its own characters, unescaped.
pub open spec fn canon_chars(v: ValueModel, d: nat) -> Seq<char> {
    match v {
        ValueModel::Null => "null"@,
        ValueModel::Bool(b) => if b {
            "true"@
        } else {
            "false"@
        },
        ValueModel::Int(i) => int_chars(i),
        ValueModel::UInt(u) => dec_chars(u as nat),
        ValueModel::Float(f) => float_chars(f, d),
        ValueModel::Text(s) => s,
    }
}

/// Each retained character encoded as exactly one byte (its low byte).
pub open spec fn byte_of_char(c: char) -> u8 {
    c as u8
}

/// The first `limit` characters of a canonical string.
pub open spec fn truncated(s: Seq<char>, limit: int) -> Seq<char> {
    if s.len() <= limit {
        s
    } else {
        s.take(limit)
    }
}

/// The byte encoding shared by every canonical form: keep at most
/// `limit` characters, encode each as one byte, then append the
/// newline and NUL sentinel.
pub open spec fn encoded_bytes(s: Seq<char>, limit: int) -> Seq<u8> {
    truncated(s, limit).map_values(|c: char| byte_of_char(c)) + seq![10u8, 0u8]
}

/// The canonical byte string of one cell under a character limit and a
/// significant-digit count.
pub open spec fn canon_bytes(v: ValueModel, limit: int, d: nat) -> Seq<u8> {
    encoded_bytes(canon_chars(v, d), limit)
}

// ---------------------------------------------------------------------------
// Executable decimal formatting.
// ---------------------------------------------------------------------------

/// Executable form of [`digit_char`].
fn digit_to_char(d: u8) -> (c: char)
    requires
        d < 10,
    ensures
        c == digit_char(d as int),
{
    match d {
        0 => '0',
        1 => '1',
        2 => '2',
        3 => '3',
        4 => '4',
        5 => '5',
        6 => '6',
        7 => '7',
        8 => '8',
        _ => '9',
    }
}

/// Appends the digits of a positive integer, most significant first.
fn push_dec(n: u64, out: &mut Vec<char>)
    ensures
        final(out)@ == old(out)@ + dec_rec(n as nat),
    decreases n,
{
    if n == 0 {
        assert(old(out)@ + dec_rec(0) =~= old(out)@);
    } else {
        push_dec(n / 10, out);
        let d = (n % 10) as u8;
        out.push(digit_to_char(d));
        assert((old(out)@ + dec_rec(n as nat / 10)).push(digit_char((n as nat % 10) as int)) =~= old(
            out,
        )@ + dec_rec(n as nat));
    }
}

/// Appends the decimal form of an unsigned integer.
fn push_u64(n: u64, out: &mut Vec<char>)
    ensures
        final(out)@ == old(out)@ + dec_chars(n as nat),
{
    if n == 0 {
        out.push('0');
        assert(old(out)@.push('0') =~= old(out)@ + dec_chars(0));
    } else {
        push_dec(n, out);
    }
}

/// Appends the decimal form of a signed integer.
fn push_i64(n: i64, out: &mut Vec<char>)
    ensures
        final(out)@ == old(out)@ + int_chars(n as int),
{
    if n < 0 {
        out.push('-');
        let mag_wide: i128 = -(n as i128);
        let mag: u64 = mag_wide as u64;
        assert(mag == -(n as int));
        push_u64(mag, out);
        assert(old(out)@.push('-') + dec_chars(mag as nat) =~= old(out)@ + int_chars(n as int));
    } else {
        push_u64(n as u64, out);
    }
}

// ---------------------------------------------------------------------------
// Executable significant-figure rounding and float formatting.
// ---------------------------------------------------------------------------

/// Copies the first `k` digits of a digit vector.
fn vec_prefix(m: &Vec<u8>, k: usize) -> (r: Vec<u8>)
    requires
        k <= m@.len(),
    ensures
        r@ == m@.take(k as int),
{
    let mut r: Vec<u8> = Vec::new();
    let mut i: usize = 0;
    while i < k
        invariant
            0 <= i <= k <= m@.len(),
            r@ == m@.take(i as int),
        decreases k - i,
    {
        r.push(m[i]);
        assert(m@.take(i as int).push(m@[i as int]) =~= m@.take(i + 1));
        i += 1;
    }
    r
}

/// Executable form of [`inc_digits`].
fn inc_digits_exec(m: &Vec<u8>) -> (r: Vec<u8>)
    requires
        forall|i: int| 0 <= i < m@.len() ==> m@[i] < 10,
    ensures
        r@ == inc_digits(m@),
    decreases m@.len(),
{
    if m.len() == 0 {
        let mut r: Vec<u8> = Vec::new();
        r.push(1u8);
        assert(r@ =~= inc_digits(m@));
        r
    } else {
        let last = m[m.len() - 1];
        let head = vec_prefix(m, m.len() - 1);
        assert(head@ =~= m@.drop_last());
        if last == 9 {
            let mut r = inc_digits_exec(&head);
            r.push(0u8);
            r
        } else {
            let mut r = head;
            r.push(last + 1);
            r
        }
    }
}

/// Builds the canonical scientific form of a decomposed float:
/// executable form of [`float_chars`].
#[verifier::rlimit(100)]
fn float_chars_exec(f: &FloatRepr, digits: u32) -> (r: Vec<char>)
    requires
        digits >= 1,
        float_wf(f@),
    ensures
        r@ == float_chars(f@, digits as nat),
{
    let ghost dd = digits as nat;
    let mut e: i64 = f.exp as i64;
    let mut mant: Vec<u8>;
    if (digits as usize) < f.mantissa.len() {
        let d = digits as usize;
        let kept = vec_prefix(&f.mantissa, d);
        if f.mantissa[d] >= 5 {
            let inc = inc_digits_exec(&kept);
            if inc.len() > d {
                mant = vec_prefix(&inc, d);
                e = e + 1;
                assert(rounding_carries(f@.mantissa, dd));
            } else {
                mant = inc;
                assert(!rounding_carries(f@.mantissa, dd));
            }
        } else {
            mant = kept;
            assert(!rounding_carries(f@.mantissa, dd));
        }
    } else {
        mant = vec_prefix(&f.mantissa, f.mantissa.len());
        assert(mant@ =~= f@.mantissa);
        assert(!rounding_carries(f@.mantissa, dd));
    }
    assert(mant@ == rounded_mantissa(f@.mantissa, dd));
    assert(e == rounded_exp(f@.mantissa, dd, f@.exp));
    // Rounding never lengthens the mantissa beyond `digits` figures.
    assert(mant@.len() <= dd) by {
        if f@.mantissa.len() > dd {
            lemma_inc_digits_len(f@.mantissa.take(dd as int));
        }
    }
    // Pad with trailing zeros to exactly `digits` figures.
    let ghost rm = mant@;
    while mant.len() < digits as usize
        invariant
            rm.len() <= mant@.len(),
            mant@.len() <= digits as usize || mant@.len() == rm.len(),
            mant@.take(rm.len() as int) == rm,
            forall|j: int| rm.len() <= j < mant@.len() ==> mant@[j] == 0,
        decreases digits as usize - mant.len(),
    {
        mant.push(0u8);
        assert(mant@.take(rm.len() as int) =~= rm);
    }
    assert(mant@ == pad_digits(rm, dd)) by {
        if rm.len() < dd {
            assert(mant@ =~= rm + zero_digits((dd - rm.len()) as nat));
        }
    }
    let ghost full = pad_digits(rounded_mantissa(f@.mantissa, dd), dd);
    assert(mant@ == full);
    proof {
        lemma_rounded_digits_bound(f@.mantissa, dd);
        assert(forall|j: int| 0 <= j < full.len() ==> full[j] < 10) by {
            assert(forall|j: int| 0 <= j < rm.len() ==> full[j] == rm[j]);
        }
    }

    let mut out: Vec<char> = Vec::new();
    out.push(if f.neg { '-' } else { '+' });
    out.push(digit_to_char(mant[0]));
    if digits > 1 {
        out.push('.');
        let mut i: usize = 1;
        while i < mant.len()
            invariant
                1 <= i <= mant@.len(),
                mant@ == full,
                dd > 1,
                forall|j: int| 0 <= j < full.len() ==> full[j] < 10,
                out@ == seq![if f@.neg { '-' } else { '+' }, digit_char(full[0] as int), '.']
                    + digit_chars_of(full.take(i as int).skip(1)),
            decreases mant@.len() - i,
        {
            out.push(digit_to_char(mant[i]));
            assert(digit_chars_of(full.take(i + 1).skip(1)) =~= digit_chars_of(
                full.take(i as int).skip(1),
            ).push(digit_char(full[i as int] as int)));
            i += 1;
        }
        assert(full.take(full.len() as int) =~= full);
    }
    // The exponent part.
    out.push('e');
    if e >= 0 {
        out.push('+');
        push_u64(e as u64, &mut out);
    } else {
        out.push('-');
        push_u64((-e) as u64, &mut out);
    }
    assert(out@ =~= float_chars(f@, dd));
    out
}

/// A carry out of an increment lengthens the digit string by at most
/// one digit.
proof fn lemma_inc_digits_len(m: Seq<u8>)
    ensures
        m.len() <= inc_digits(m).len() <= m.len() + 1,
    decreases m.len(),
{
    if m.len() > 0 && m.last() == 9 {
        lemma_inc_digits_len(m.drop_last());
    }
}

/// Incrementing a decimal digit string yields decimal digits.
proof fn lemma_inc_digits_bound(m: Seq<u8>)
    requires
        forall|i: int| 0 <= i < m.len() ==> m[i] < 10,
    ensures
        forall|i: int| 0 <= i < inc_digits(m).len() ==> inc_digits(m)[i] < 10,
    decreases m.len(),
{
    let r = inc_digits(m);
    if m.len() == 0 {
        assert(r == seq![1u8]);
    } else if m.last() == 9 {
        lemma_inc_digits_bound(m.drop_last());
        let inner = inc_digits(m.drop_last());
        assert(r == inner.push(0u8));
        assert forall|i: int| 0 <= i < r.len() implies r[i] < 10 by {
            if i < inner.len() {
                assert(r[i] == inner[i]);
            } else {
                assert(r[i] == 0u8);
            }
        }
    } else {
        assert(m.last() < 9);
        assert(r == m.drop_last().push((m.last() + 1) as u8));
        assert forall|i: int| 0 <= i < r.len() implies r[i] < 10 by {
            if i < m.len() - 1 {
                assert(r[i] == m.drop_last()[i]);
                assert(m.drop_last()[i] == m[i]);
            } else {
                assert(r[i] == (m.last() + 1) as u8);
            }
        }
    }
}

/// Rounding a decimal digit string yields decimal digits.
proof fn lemma_rounded_digits_bound(m: Seq<u8>, d: nat)
    requires
        forall|i: int| 0 <= i < m.len() ==> m[i] < 10,
    ensures
        forall|i: int|
            0 <= i < rounded_mantissa(m, d).len() ==> rounded_mantissa(m, d)[i] < 10,
{
    if m.len() > d && m[d as int] >= 5 {
        lemma_inc_digits_bound(m.take(d as int));
    }
}

// ---------------------------------------------------------------------------
// Executable canonical strings and bytes.
// ---------------------------------------------------------------------------

/// Relies on String::push: appends exactly the one character.
#[verifier::external_body]
fn push_char(s: &mut String, c: char)
    ensures
        final(s)@ == old(s)@.push(c),
{
    s.push(c);
}

/// Builds a string from its characters.
fn string_of_chars(cs: &Vec<char>) -> (s: String)
    ensures
        s@ == cs@,
{
    let mut s = String::new();
    let mut i: usize = 0;
    while i < cs.len()
        invariant
            0 <= i <= cs@.len(),
            s@ == cs@.take(i as int),
        decreases cs@.len() - i,
    {
        push_char(&mut s, cs[i]);
        assert(cs@.take(i as int).push(cs@[i as int]) =~= cs@.take(i + 1));
        i += 1;
    }
    assert(cs@.take(cs@.len() as int) =~= cs@);
    s
}

/// The canonical string of one cell: executable form of
/// [`canon_chars`].
pub fn canon_string(v: &Value, digits: u32) -> (s: String)
    requires
        digits >= 1,
        crate::value::value_wf(v@),
    ensures
        s@ == canon_chars(v@, digits as nat),
{
    match v {
        Value::Null => String::from_str("null"),
        Value::Bool(b) => {
            if *b {
                String::from_str("true")
            } else {
                String::from_str("false")
            }
        },
        Value::Int(i) => {
            let mut cs: Vec<char> = Vec::new();
            push_i64(*i, &mut cs);
            assert(cs@ =~= int_chars(*i as int));
            string_of_chars(&cs)
        },
        Value::UInt(u) => {
            let mut cs: Vec<char> = Vec::new();
            push_u64(*u, &mut cs);
            assert(cs@ =~= dec_chars(*u as nat));
            string_of_chars(&cs)
        },
        Value::Float(f) => {
            let cs = float_chars_exec(f, digits);
            string_of_chars(&cs)
        },
        Value::Text(t) => t.clone(),
    }
}

/// Truncates a canonical string to `limit` characters, encodes each
/// kept character as one byte, and appends the newline / NUL sentinel:
/// executable form of [`encoded_bytes`].
pub fn encode_string_bytes(s: &String, limit: usize) -> (b: Vec<u8>)
    ensures
        b@ == encoded_bytes(s@, limit as int),
{
    let n = s.as_str().unicode_len();
    let take_n = if n < limit {
        n
    } else {
        limit
    };
    let ghost t = truncated(s@, limit as int);
    assert(t.len() == take_n);
    let mut b: Vec<u8> = Vec::new();
    let mut i: usize = 0;
    while i < take_n
        invariant
            0 <= i <= take_n <= s@.len(),
            t == truncated(s@, limit as int),
            t.len() == take_n,
            forall|j: int| 0 <= j < take_n ==> t[j] == s@[j],
            b@ == t.take(i as int).map_values(|c: char| byte_of_char(c)),
        decreases take_n - i,
    {
        let c = s.as_str().get_char(i);
        b.push(c as u8);
        assert(t.take(i + 1).map_values(|ch: char| byte_of_char(ch)) =~= t.take(
            i as int,
        ).map_values(|ch: char| byte_of_char(ch)).push(byte_of_char(t[i as int])));
        i += 1;
    }
    b.push(10u8);
    b.push(0u8);
    assert(t.take(take_n as int) =~= t);
    assert(b@ =~= encoded_bytes(s@, limit as int));
    b
}

/// The canonical bytes of one cell under a character limit:
/// executable form of [`canon_bytes`].
pub fn encode_cell(v: &Value, limit: usize, digits: u32) -> (b: Vec<u8>)
    requires
        digits >= 1,
        crate::value::value_wf(v@),
    ensures
        b@ == canon_bytes(v@, limit as int, digits as nat),
{
    let s = canon_string(v, digits);
    encode_string_bytes(&s, limit)
}

// ---------------------------------------------------------------------------
// Per-column canonicalization.
// ---------------------------------------------------------------------------

/// Conversion of a column of cells to their universally comparable
/// canonical forms.
pub trait UNFVector {
    /// The cells this vector canonicalizes, in row order.
    spec fn unf_cells(&self) -> Seq<ValueModel>;

    /// The canonical string of every cell, in row order.
    fn to_unf(&self, digits: u32) -> (r: Vec<String>)
        requires
            digits >= 1,
            forall|i: int|
                0 <= i < self.unf_cells().len() ==> crate::value::value_wf(
                    #[trigger] self.unf_cells()[i],
                ),
        ensures
            r@.len() == self.unf_cells().len(),
            forall|i: int|
                0 <= i < r@.len() ==> r@[i]@ == canon_chars(
                    self.unf_cells()[i],
                    digits as nat,
                );

    /// The canonical bytes of every cell, truncated to `characters`
    /// characters and sentinel-terminated, in row order.
    fn raw(&self, characters: usize, digits: u32) -> (r: Vec<Vec<u8>>)
        requires
            digits >= 1,
            forall|i: int|
                0 <= i < self.unf_cells().len() ==> crate::value::value_wf(
                    #[trigger] self.unf_cells()[i],
                ),
        ensures
            r@.len() == self.unf_cells().len(),
            forall|i: int|
                0 <= i < r@.len() ==> r@[i]@ == canon_bytes(
                    self.unf_cells()[i],
                    characters as int,
                    digits as nat,
                );
}

impl UNFVector for Column {
    open spec fn unf_cells(&self) -> Seq<ValueModel> {
        self@
    }

    fn to_unf(&self, digits: u32) -> (r: Vec<String>)
    {
        assert forall|j: int| 0 <= j < self@.len() implies crate::value::value_wf(
            #[trigger] self@[j],
        ) by {
            assert(self@[j] == self.unf_cells()[j]);
        }
        let mut r: Vec<String> = Vec::new();
        let mut i: usize = 0;
        while i < self.cells.len()
            invariant
                0 <= i <= self.cells@.len(),
                self@.len() == self.cells@.len(),
                digits >= 1,
                forall|j: int| 0 <= j < self@.len() ==> crate::value::value_wf(#[trigger] self@[j]),
                r@.len() == i,
                forall|j: int|
                    0 <= j < i ==> (#[trigger] r@[j])@ == canon_chars(self@[j], digits as nat),
            decreases self.cells@.len() - i,
        {
            assert(self@[i as int] == self.cells@[i as int]@);
            let s = canon_string(&self.cells[i], digits);
            r.push(s);
            i += 1;
        }
        r
    }

    fn raw(&self, characters: usize, digits: u32) -> (r: Vec<Vec<u8>>)
    {
        assert forall|j: int| 0 <= j < self@.len() implies crate::value::value_wf(
            #[trigger] self@[j],
        ) by {
            assert(self@[j] == self.unf_cells()[j]);
        }
        let mut r: Vec<Vec<u8>> = Vec::new();
        let mut i: usize = 0;
        while i < self.cells.len()
            invariant
                0 <= i <= self.cells@.len(),
                self@.len() == self.cells@.len(),
                digits >= 1,
                forall|j: int| 0 <= j < self@.len() ==> crate::value::value_wf(#[trigger] self@[j]),
                r@.len() == i,
                forall|j: int|
                    0 <= j < i ==> (#[trigger] r@[j])@ == canon_bytes(
                        self@[j],
                        characters as int,
                        digits as nat,
                    ),
            decreases self.cells@.len() - i,
        {
            assert(self@[i as int] == self.cells@[i as int]@);
            let b = encode_cell(&self.cells[i], characters, digits);
            r.push(b);
            i += 1;
        }
        r
    }
}

// ---------------------------------------------------------------------------
// Laws of the canonical encoder.
// ---------------------------------------------------------------------------

/// Null canonicalization, at the string level: a null cell's canonical
/// string is the fixed sentinel string, never a type-specific default,
/// whatever the significant-digit setting.
pub proof fn lemma_null_canonical_string(d: nat)
    ensures
        canon_chars(ValueModel::Null, d) == "null"@,
{
}

/// Null canonicalization, at the byte level: under any two character
/// limits that do not cut into the sentinel string (so in particular
/// under the configured limit of one column and the fixed timestamp
/// limit of another), a null cell encodes to exactly the same bytes.
pub proof fn lemma_null_canonical_bytes(limit1: int, limit2: int, d1: nat, d2: nat)
    requires
        limit1 >= 4,
        limit2 >= 4,
    ensures
        canon_bytes(ValueModel::Null, limit1, d1) == canon_bytes(ValueModel::Null, limit2, d2),
{
    reveal_strlit("null");
    assert("null"@.len() == 4);
}

/// The float value denoted by a canonical string: the mantissa rounded
/// to `d` figures and padded to exactly `d` digits, with the exponent
/// the rounding produced.  Zero stays in its canonical representation.
pub open spec fn canon_float_model(f: FloatModel, d: nat) -> FloatModel {
    if f.mantissa.len() == 0 {
        f
    } else {
        FloatModel {
            neg: f.neg,
            mantissa: pad_digits(rounded_mantissa(f.mantissa, d), d),
            exp: rounded_exp(f.mantissa, d, f.exp),
        }
    }
}

/// Rounding to `d` significant figures never yields more than `d`
/// digits.
pub proof fn lemma_rounded_mantissa_len(m: Seq<u8>, d: nat)
    ensures
        rounded_mantissa(m, d).len() <= d || rounded_mantissa(m, d) == m,
{
    if m.len() > d {
        lemma_inc_digits_len(m.take(d as int));
    }
}

/// Significant-figure stability: re-encoding the float value that a
/// canonical string denotes, at the same digit count, reproduces that
/// canonical string exactly.
pub proof fn lemma_float_reencode_stable(f: FloatModel, d: nat)
    requires
        d >= 1,
        float_wf(f),
    ensures
        float_chars(canon_float_model(f, d), d) == float_chars(f, d),
{
    let g = canon_float_model(f, d);
    if f.mantissa.len() != 0 {
        let rm = rounded_mantissa(f.mantissa, d);
        lemma_rounded_mantissa_len(f.mantissa, d);
        assert(rm.len() <= d);
        assert(g.mantissa == pad_digits(rm, d));
        assert(g.mantissa.len() == d);
        assert(rounded_mantissa(g.mantissa, d) == g.mantissa);
        assert(!rounding_carries(g.mantissa, d));
        assert(pad_digits(rounded_mantissa(g.mantissa, d), d) == g.mantissa);
        assert(rounded_exp(g.mantissa, d, g.exp) == rounded_exp(f.mantissa, d, f.exp));
    }
}

// ---------------------------------------------------------------------------
// Round-trip between canonical float strings and decompositions.
// ---------------------------------------------------------------------------

/// Digit characters denote their digits: rendering a number and
/// reading the digits back is the identity.
proof fn lemma_dec_rec_roundtrip(n: nat)
    ensures
        forall|i: int|
            0 <= i < dec_rec(n).len() ==> crate::value::is_digit_char(#[trigger] dec_rec(n)[i]),
        crate::value::digits_value(dec_rec(n)) == n,
    decreases n,
{
    if n != 0 {
        lemma_dec_rec_roundtrip(n / 10);
        let inner = dec_rec(n / 10);
        let c = digit_char((n % 10) as int);
        assert(crate::value::is_digit_char(c));
        assert(dec_rec(n) == inner.push(c));
        assert(dec_rec(n).drop_last() =~= inner);
        assert(dec_rec(n).last() == c);
        assert(crate::value::digit_value(c) == n % 10);
        assert forall|i: int| 0 <= i < dec_rec(n).len() implies crate::value::is_digit_char(
            #[trigger] dec_rec(n)[i],
        ) by {
            if i < inner.len() {
                assert(dec_rec(n)[i] == inner[i]);
            }
        }
    }
}

/// As [`lemma_dec_rec_roundtrip`], for the total decimal form.
proof fn lemma_dec_chars_roundtrip(n: nat)
    ensures
        dec_chars(n).len() > 0,
        forall|i: int|
            0 <= i < dec_chars(n).len() ==> crate::value::is_digit_char(
                #[trigger] dec_chars(n)[i],
            ),
        crate::value::digits_value(dec_chars(n)) == n,
{
    lemma_dec_rec_roundtrip(n);
    if n == 0 {
        assert(dec_chars(0) == seq!['0']);
        assert(seq!['0'].drop_last() =~= Seq::<char>::empty());
        assert(seq!['0'].last() == '0');
        assert(crate::value::digits_value(seq!['0']) == crate::value::digit_value('0'));
    } else {
        assert(dec_rec(n).len() > 0);
    }
}

/// Rendering digits as characters and reading their values back is the
/// identity.
proof fn lemma_digit_chars_roundtrip(m: Seq<u8>)
    requires
        forall|i: int| 0 <= i < m.len() ==> m[i] < 10,
    ensures
        forall|i: int|
            0 <= i < m.len() ==> crate::value::is_digit_char(#[trigger] digit_chars_of(m)[i]),
        crate::value::digit_values(digit_chars_of(m)) == m,
{
    assert forall|i: int| 0 <= i < m.len() implies crate::value::is_digit_char(
        #[trigger] digit_chars_of(m)[i],
    ) by {
        assert(digit_chars_of(m)[i] == digit_char(m[i] as int));
    }
    assert forall|i: int|
        0 <= i < m.len() implies crate::value::digit_values(digit_chars_of(m))[i] == m[i] by {
        assert(digit_chars_of(m)[i] == digit_char(m[i] as int));
        assert(crate::value::digit_value(digit_char(m[i] as int)) == m[i]);
    }
    assert(crate::value::digit_values(digit_chars_of(m)) =~= m);
}

/// Incrementing a digit string never zeroes its leading digit.
proof fn lemma_inc_digits_leading(m: Seq<u8>)
    requires
        m.len() > 0 ==> m[0] != 0,
        forall|i: int| 0 <= i < m.len() ==> m[i] < 10,
    ensures
        inc_digits(m).len() > 0,
        inc_digits(m)[0] != 0,
    decreases m.len(),
{
    if m.len() == 0 {
    } else if m.last() == 9 {
        assert(forall|i: int| 0 <= i < m.drop_last().len() ==> m.drop_last()[i] == m[i]);
        if m.len() == 1 {
            lemma_inc_digits_leading(m.drop_last());
        } else {
            assert(m.drop_last()[0] == m[0]);
            lemma_inc_digits_leading(m.drop_last());
            assert(inc_digits(m)[0] == inc_digits(m.drop_last())[0]);
        }
    } else {
        assert(m.last() < 9);
        if m.len() == 1 {
            assert(inc_digits(m)[0] == (m.last() + 1) as u8);
        } else {
            assert(inc_digits(m)[0] == m.drop_last()[0]);
        }
    }
}

/// The rounded, padded mantissa of a nonzero value keeps a nonzero
/// leading digit.
proof fn lemma_full_leading(m: Seq<u8>, d: nat)
    requires
        d >= 1,
        m.len() > 0,
        m[0] != 0,
        forall|i: int| 0 <= i < m.len() ==> m[i] < 10,
    ensures
        pad_digits(rounded_mantissa(m, d), d).len() == d,
        pad_digits(rounded_mantissa(m, d), d)[0] != 0,
{
    let rm = rounded_mantissa(m, d);
    lemma_rounded_mantissa_len(m, d);
    if m.len() <= d {
        assert(rm == m);
    } else {
        let kept = m.take(d as int);
        assert(kept[0] == m[0]);
        if m[d as int] >= 5 {
            lemma_inc_digits_leading(kept);
            let inc = inc_digits(kept);
            if inc.len() > d {
                assert(rm == inc.take(d as int));
                assert(rm[0] == inc[0]);
            } else {
                assert(rm == inc);
            }
        } else {
            assert(rm == kept);
        }
    }
    assert(rm.len() > 0);
    assert(rm[0] != 0);
    assert(pad_digits(rm, d)[0] == rm[0]);
}

/// Printing a float canonically and parsing the result back yields
/// exactly the decomposition that the canonical string denotes.
#[verifier::rlimit(100)]
pub proof fn lemma_float_chars_parse_roundtrip(f: FloatModel, d: nat)
    requires
        d >= 1,
        float_wf(f),
        -30000 <= rounded_exp(f.mantissa, d, f.exp) <= 30000,
    ensures
        crate::value::parse_sci(float_chars(f, d)) == Some(canon_float_model(f, d)),
{
    let full = pad_digits(rounded_mantissa(f.mantissa, d), d);
    let e = rounded_exp(f.mantissa, d, f.exp);
    let sign = if f.neg {
        '-'
    } else {
        '+'
    };
    let c0 = digit_char(full[0] as int);
    let mid = if d > 1 {
        seq!['.'] + digit_chars_of(full.skip(1))
    } else {
        Seq::<char>::empty()
    };
    let ez = exp_chars(e);
    let s = float_chars(f, d);
    assert(s == seq![sign, c0] + mid + ez);

    // The padded mantissa has exactly `d` decimal digits.
    lemma_rounded_mantissa_len(f.mantissa, d);
    assert(full.len() == d);
    assert(forall|i: int| 0 <= i < full.len() ==> full[i] < 10) by {
        lemma_rounded_digits_bound(f.mantissa, d);
        let rm = rounded_mantissa(f.mantissa, d);
        assert(forall|i: int| 0 <= i < rm.len() ==> full[i] == rm[i]);
    }
    lemma_digit_chars_roundtrip(full);
    let mant_chars = digit_chars_of(full);

    // The sign character, then exactly one digit.
    assert(s[0] == sign);
    assert(s.len() > 0);
    let t = s.skip(1);
    assert(t =~= seq![c0] + mid + ez);
    assert(t[0] == c0);
    assert(crate::value::is_digit_char(c0)) by {
        assert(c0 == mant_chars[0]);
    }
    assert(ez[0] == 'e');
    assert(!crate::value::is_digit_char('e'));
    assert(!crate::value::is_digit_char('.'));
    if d > 1 {
        assert(t[1] == '.');
    } else {
        assert(t[1] == 'e');
    }
    crate::value::lemma_digit_prefix_len_is(t, 1);

    let u = t.skip(1);
    assert(u =~= mid + ez);

    // The fraction part, when there is one.
    if d > 1 {
        assert(u[0] == '.');
        let w = u.skip(1);
        assert(w =~= digit_chars_of(full.skip(1)) + ez);
        assert(digit_chars_of(full.skip(1)).len() == d - 1);
        assert forall|i: int| 0 <= i < d - 1 implies crate::value::is_digit_char(
            #[trigger] w[i],
        ) by {
            assert(w[i] == digit_chars_of(full.skip(1))[i]);
            assert(digit_chars_of(full.skip(1))[i] == mant_chars[i + 1]);
        }
        assert(w[d - 1] == ez[0]);
        crate::value::lemma_digit_prefix_len_is(w, d - 1);
        assert(w.take(d - 1) =~= digit_chars_of(full.skip(1)));
        assert(seq![t[0]] + w.take(d - 1) =~= mant_chars);
        assert(w.skip(d - 1) =~= ez);
    } else {
        assert(u =~= ez);
        assert(u.len() > 0 && u[0] == 'e');
        assert(seq![t[0]] =~= mant_chars);
    }
    assert(crate::value::parse_sci(s) == crate::value::parse_exp_part(f.neg, mant_chars, ez));

    // The exponent part.
    let mag = (if e >= 0 {
        e
    } else {
        -e
    }) as nat;
    let esign = if e >= 0 {
        '+'
    } else {
        '-'
    };
    assert(ez =~= seq!['e', esign] + dec_chars(mag));
    let et = ez.skip(1);
    assert(et =~= seq![esign] + dec_chars(mag));
    assert(et[0] == esign);
    let ed = et.skip(1);
    assert(ed =~= dec_chars(mag));
    lemma_dec_chars_roundtrip(mag);
    crate::value::lemma_digit_prefix_len_is(ed, ed.len() as int);
    assert(crate::value::digits_value(ed) == mag);
    assert(mag <= 30000);
    assert(crate::value::parse_exp_part(f.neg, mant_chars, ez) == crate::value::assemble_float(
        f.neg,
        mant_chars,
        e,
    ));

    // Reassembly gives back exactly the denoted decomposition.
    if f.mantissa.len() == 0 {
        assert(rounded_mantissa(f.mantissa, d) == f.mantissa);
        assert(full =~= zero_digits(d));
        assert(full[0] == 0);
        assert(mant_chars[0] == '0');
        assert(crate::value::all_zero_digits(mant_chars)) by {
            assert forall|i: int| 0 <= i < mant_chars.len() implies mant_chars[i] == '0' by {
                assert(mant_chars[i] == digit_char(full[i] as int));
                assert(full[i] == 0);
            }
        }
        assert(canon_float_model(f, d) == f);
        assert(f.mantissa =~= Seq::<u8>::empty());
        assert(f == (FloatModel { neg: false, mantissa: Seq::<u8>::empty(), exp: 0 }));
    } else {
        lemma_full_leading(f.mantissa, d);
        assert(full[0] != 0);
        assert(mant_chars[0] != '0') by {
            assert(crate::value::digit_value(mant_chars[0]) == full[0]);
            assert(crate::value::digit_value('0') == 0);
        }
        assert(crate::value::digit_values(mant_chars) == full);
        assert(canon_float_model(f, d) == (FloatModel { neg: f.neg, mantissa: full, exp: e }));
    }
}

/// Significant-figure stability, at the string level: the canonical
/// form of a float parses back to a decomposition whose canonical form
/// at the same digit count is the very same string.
pub proof fn lemma_sigfig_stability(f: FloatModel, d: nat)
    requires
        d >= 1,
        float_wf(f),
        -30000 <= rounded_exp(f.mantissa, d, f.exp) <= 30000,
    ensures
        crate::value::parse_sci(float_chars(f, d)) matches Some(g) && float_chars(g, d)
            == float_chars(f, d),
{
    lemma_float_chars_parse_roundtrip(f, d);
    lemma_float_reencode_stable(f, d);
}

} // verus!
