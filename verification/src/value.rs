use vstd::prelude::*;

verus! {

/// The declared type of one column: a closed sum over the supported
/// kinds, so that no unsupported column can reach the encoder.
///
/// Date columns are carried as their underlying day / tick count, so
/// they arrive here as `Int` columns.  `Timestamp` is distinguished
/// from `Int` only because timestamp columns use a fixed truncation
/// length instead of the configured character limit.
#[derive(Clone, Copy, PartialEq, Eq, Structural, Debug)]
pub enum ColumnType {
    Boolean,
    Int,
    UInt,
    Float,
    Text,
    Timestamp,
}

/// Mathematical model of a [`FloatRepr`].
pub struct FloatModel {
    pub neg: bool,
    pub mantissa: Seq<u8>,
    pub exp: int,
}

/// A floating-point value, decomposed into its decimal scientific form:
/// the value is `(-1)^neg * d_0 . d_1 d_2 ... * 10^exp`, where `d_i`
/// are the decimal digits of `mantissa`.  Zero is represented by an
/// empty mantissa (with `neg` false and `exp` zero).
///
/// The encoder works on this exact decimal decomposition; producing it
/// from a machine float is the data source's concern.
#[derive(Clone, Debug)]
pub struct FloatRepr {
    pub neg: bool,
    pub mantissa: Vec<u8>,
    pub exp: i32,
}

impl View for FloatRepr {
    type V = FloatModel;

    open spec fn view(&self) -> FloatModel {
        FloatModel { neg: self.neg, mantissa: self.mantissa@, exp: self.exp as int }
    }
}

/// A well-formed decimal decomposition: decimal digits only, no leading
/// zero (so the form is normalized), zero written canonically, and an
/// exponent within the range any binary float can produce.
pub open spec fn float_wf(f: FloatModel) -> bool {
    &&& forall|i: int| 0 <= i < f.mantissa.len() ==> f.mantissa[i] < 10
    &&& f.mantissa.len() > 0 ==> f.mantissa[0] != 0
    &&& f.mantissa.len() == 0 ==> (!f.neg && f.exp == 0)
    &&& -30000 <= f.exp <= 30000
}

impl FloatRepr {
    /// Runtime check of [`float_wf`].
    pub fn is_well_formed(&self) -> (b: bool)
        ensures
            b == float_wf(self@),
    {
        if self.mantissa.len() == 0 {
            return !self.neg && self.exp == 0;
        }
        if self.mantissa[0] == 0 {
            return false;
        }
        if !(-30000 <= self.exp && self.exp <= 30000) {
            return false;
        }
        let mut i: usize = 0;
        while i < self.mantissa.len()
            invariant
                0 <= i <= self.mantissa@.len(),
                forall|j: int| 0 <= j < i ==> self.mantissa@[j] < 10,
            decreases self.mantissa@.len() - i,
        {
            if self.mantissa[i] >= 10 {
                return false;
            }
            i += 1;
        }
        true
    }
}

/// Mathematical model of a [`Value`].
pub enum ValueModel {
    Null,
    Bool(bool),
    Int(int),
    UInt(int),
    Float(FloatModel),
    Text(Seq<char>),
}

/// One cell of a column: either null or a value of the column's kind.
#[derive(Clone, Debug)]
pub enum Value {
    Null,
    Bool(bool),
    Int(i64),
    UInt(u64),
    Float(FloatRepr),
    Text(String),
}

impl View for Value {
    type V = ValueModel;

    open spec fn view(&self) -> ValueModel {
        match self {
            Value::Null => ValueModel::Null,
            Value::Bool(b) => ValueModel::Bool(*b),
            Value::Int(i) => ValueModel::Int(*i as int),
            Value::UInt(u) => ValueModel::UInt(*u as int),
            Value::Float(f) => ValueModel::Float(f@),
            Value::Text(s) => ValueModel::Text(s@),
        }
    }
}

/// Whether a cell may sit in a column of the given type: null is
/// accepted everywhere, anything else must match the declared kind.
pub open spec fn value_matches(ty: ColumnType, v: ValueModel) -> bool {
    match v {
        ValueModel::Null => true,
        ValueModel::Bool(_) => ty == ColumnType::Boolean,
        ValueModel::Int(_) => ty == ColumnType::Int || ty == ColumnType::Timestamp,
        ValueModel::UInt(_) => ty == ColumnType::UInt,
        ValueModel::Float(_) => ty == ColumnType::Float,
        ValueModel::Text(_) => ty == ColumnType::Text,
    }
}

/// Well-formedness of one cell value on its own.
pub open spec fn value_wf(v: ValueModel) -> bool {
    match v {
        ValueModel::Float(f) => float_wf(f),
        _ => true,
    }
}

/// A cell fit for a column of the given type.
pub open spec fn cell_ok(ty: ColumnType, v: ValueModel) -> bool {
    value_matches(ty, v) && value_wf(v)
}

/// Runtime check of [`cell_ok`].
pub fn value_conforms(v: &Value, ty: ColumnType) -> (b: bool)
    ensures
        b == cell_ok(ty, v@),
{
    match v {
        Value::Null => true,
        Value::Bool(_) => matches!(ty, ColumnType::Boolean),
        Value::Int(_) => matches!(ty, ColumnType::Int) || matches!(ty, ColumnType::Timestamp),
        Value::UInt(_) => matches!(ty, ColumnType::UInt),
        Value::Float(f) => matches!(ty, ColumnType::Float) && f.is_well_formed(),
        Value::Text(_) => matches!(ty, ColumnType::Text),
    }
}

/// Mathematical model of a [`Field`].
pub struct FieldModel {
    pub name: Seq<char>,
    pub ty: ColumnType,
}

/// One schema entry: a column's name and declared type.  The name
/// identifies the column to the data source; only the type affects the
/// fingerprint.
#[derive(Clone, Debug)]
pub struct Field {
    pub name: String,
    pub ty: ColumnType,
}

impl View for Field {
    type V = FieldModel;

    open spec fn view(&self) -> FieldModel {
        FieldModel { name: self.name@, ty: self.ty }
    }
}

/// The ordered list of fields shared by every batch of one dataset.
#[derive(Clone, Debug)]
pub struct Schema {
    pub fields: Vec<Field>,
}

impl View for Schema {
    type V = Seq<FieldModel>;

    open spec fn view(&self) -> Seq<FieldModel> {
        self.fields@.map_values(|f: Field| f@)
    }
}

/// The column types of a schema, in column order.
pub open spec fn schema_types(fields: Seq<FieldModel>) -> Seq<ColumnType> {
    fields.map_values(|f: FieldModel| f.ty)
}

/// A homogeneously typed, densely indexed sequence of cells; position
/// `i` holds row `i`'s value for this column, or null.
#[derive(Clone, Debug)]
pub struct Column {
    pub cells: Vec<Value>,
}

impl View for Column {
    type V = Seq<ValueModel>;

    open spec fn view(&self) -> Seq<ValueModel> {
        self.cells@.map_values(|v: Value| v@)
    }
}

/// Every cell of the column fits the declared type.
pub open spec fn column_wf(ty: ColumnType, cells: Seq<ValueModel>) -> bool {
    forall|i: int| 0 <= i < cells.len() ==> cell_ok(ty, #[trigger] cells[i])
}

impl Column {
    /// Runtime check of [`column_wf`].
    pub fn conforms(&self, ty: ColumnType) -> (b: bool)
        ensures
            b == column_wf(ty, self@),
    {
        let mut i: usize = 0;
        while i < self.cells.len()
            invariant
                0 <= i <= self.cells@.len(),
                forall|j: int| 0 <= j < i ==> cell_ok(ty, #[trigger] self@[j]),
            decreases self.cells@.len() - i,
        {
            if !value_conforms(&self.cells[i], ty) {
                assert(!cell_ok(ty, self@[i as int]));
                return false;
            }
            assert(cell_ok(ty, self@[i as int]));
            i += 1;
        }
        true
    }
}

/// An ordered collection of equally long columns sharing one schema.
#[derive(Clone, Debug)]
pub struct Batch {
    pub columns: Vec<Column>,
}

impl View for Batch {
    type V = Seq<Seq<ValueModel>>;

    open spec fn view(&self) -> Seq<Seq<ValueModel>> {
        self.columns@.map_values(|c: Column| c@)
    }
}

/// The number of rows of a batch, read off its first column; a batch
/// with no columns has no rows.
pub open spec fn batch_rows(cols: Seq<Seq<ValueModel>>) -> nat {
    if cols.len() == 0 {
        0
    } else {
        cols[0].len()
    }
}

/// A batch fit for the given column types: one column per declared
/// type, every cell matching its column, all columns equally long.
pub open spec fn batch_wf(types: Seq<ColumnType>, cols: Seq<Seq<ValueModel>>) -> bool {
    &&& cols.len() == types.len()
    &&& forall|c: int| 0 <= c < cols.len() ==> column_wf(types[c], #[trigger] cols[c])
    &&& forall|c: int| 0 <= c < cols.len() ==> (#[trigger] cols[c]).len() == batch_rows(cols)
}

impl Batch {
    /// The number of rows, per [`batch_rows`].
    pub fn num_rows(&self) -> (n: usize)
        ensures
            n == batch_rows(self@),
    {
        if self.columns.len() == 0 {
            0
        } else {
            self.columns[0].cells.len()
        }
    }

    /// Runtime check of [`batch_wf`] against a schema.
    pub fn conforms(&self, schema: &Schema) -> (b: bool)
        ensures
            b == batch_wf(schema_types(schema@), self@),
    {
        let ghost types = schema_types(schema@);
        if self.columns.len() != schema.fields.len() {
            return false;
        }
        let rows = self.num_rows();
        let mut c: usize = 0;
        while c < self.columns.len()
            invariant
                0 <= c <= self.columns@.len(),
                self.columns@.len() == types.len(),
                types == schema_types(schema@),
                rows == batch_rows(self@),
                forall|j: int| 0 <= j < c ==> column_wf(types[j], #[trigger] self@[j]),
                forall|j: int| 0 <= j < c ==> (#[trigger] self@[j]).len() == batch_rows(self@),
            decreases self.columns@.len() - c,
        {
            if self.columns[c].cells.len() != rows {
                assert(self@[c as int].len() != batch_rows(self@));
                return false;
            }
            if !self.columns[c].conforms(schema.fields[c].ty) {
                assert(self@[c as int] == self.columns@[c as int]@);
                assert(types[c as int] == schema.fields@[c as int].ty);
                assert(!column_wf(types[c as int], self@[c as int]));
                return false;
            }
            assert(types[c as int] == schema@[c as int].ty);
            assert(column_wf(types[c as int], self@[c as int]));
            assert(self@[c as int].len() == batch_rows(self@));
            c += 1;
        }
        true
    }
}

/// Every batch of the dataset fit for the given column types.
pub open spec fn dataset_wf(types: Seq<ColumnType>, batches: Seq<Seq<Seq<ValueModel>>>) -> bool {
    forall|b: int| 0 <= b < batches.len() ==> batch_wf(types, #[trigger] batches[b])
}

/// Runtime check of [`dataset_wf`] for a vector of batches.
pub fn dataset_conforms(batches: &Vec<Batch>, schema: &Schema) -> (b: bool)
    ensures
        b == dataset_wf(schema_types(schema@), batches@.map_values(|bt: Batch| bt@)),
{
    let ghost views = batches@.map_values(|bt: Batch| bt@);
    let mut i: usize = 0;
    while i < batches.len()
        invariant
            0 <= i <= batches@.len(),
            views == batches@.map_values(|bt: Batch| bt@),
            views.len() == batches@.len(),
            forall|j: int| 0 <= j < i ==> batch_wf(schema_types(schema@), #[trigger] views[j]),
        decreases batches@.len() - i,
    {
        if !batches[i].conforms(schema) {
            assert(!batch_wf(schema_types(schema@), views[i as int]));
            return false;
        }
        assert(batch_wf(schema_types(schema@), views[i as int]));
        i += 1;
    }
    true
}

// ---------------------------------------------------------------------------
// Parsing decimal scientific notation into a float decomposition.
// ---------------------------------------------------------------------------

/// Whether a character is a decimal digit.
pub open spec fn is_digit_char(c: char) -> bool {
    '0' <= c && c <= '9'
}

/// The numeric value of a digit character.
pub open spec fn digit_value(c: char) -> int {
    c as int - '0' as int
}

/// The length of the maximal digit prefix of a string.
pub open spec fn digit_prefix_len(s: Seq<char>) -> int
    decreases s.len(),
{
    if s.len() == 0 || !is_digit_char(s[0]) {
        0
    } else {
        1 + digit_prefix_len(s.skip(1))
    }
}

/// The number a digit string denotes, most significant digit first.
pub open spec fn digits_value(s: Seq<char>) -> int
    decreases s.len(),
{
    if s.len() == 0 {
        0
    } else {
        digits_value(s.drop_last()) * 10 + digit_value(s.last())
    }
}

/// The digits of a digit string, as numbers.
pub open spec fn digit_values(s: Seq<char>) -> Seq<u8> {
    s.map_values(|c: char| digit_value(c) as u8)
}

/// Whether every character of a string is the zero digit.
pub open spec fn all_zero_digits(s: Seq<char>) -> bool {
    forall|i: int| 0 <= i < s.len() ==> s[i] == '0'
}

/// The decomposition a parsed mantissa and exponent denote: a leading
/// zero is accepted only for the value zero, which normalizes to the
/// canonical zero decomposition.
pub open spec fn assemble_float(neg: bool, mant: Seq<char>, e: int) -> Option<FloatModel> {
    if mant[0] == '0' {
        if all_zero_digits(mant) {
            Some(FloatModel { neg: false, mantissa: Seq::empty(), exp: 0 })
        } else {
            None
        }
    } else {
        Some(FloatModel { neg, mantissa: digit_values(mant), exp: e })
    }
}

/// Parses the exponent part `e`, an optional sign, and at least one
/// digit reaching the end of the string; exponents beyond the range a
/// binary float can produce are rejected.
pub open spec fn parse_exp_part(neg: bool, mant: Seq<char>, s: Seq<char>) -> Option<FloatModel> {
    if s.len() == 0 || s[0] != 'e' {
        None
    } else {
        let t = s.skip(1);
        let eneg = t.len() > 0 && t[0] == '-';
        let d = if t.len() > 0 && (t[0] == '-' || t[0] == '+') {
            t.skip(1)
        } else {
            t
        };
        if d.len() == 0 || digit_prefix_len(d) != d.len() {
            None
        } else {
            let ev = digits_value(d);
            if ev > 30000 {
                None
            } else {
                assemble_float(neg, mant, if eneg { -ev } else { ev })
            }
        }
    }
}

/// Parses decimal scientific notation: an optional sign, exactly one
/// digit, an optional fraction after a decimal point, and a signed
/// decimal exponent after a literal `e`.  This covers both this
/// library's canonical float form and the usual lowercase-exponent
/// rendering of binary floats.
pub open spec fn parse_sci(s: Seq<char>) -> Option<FloatModel> {
    let neg = s.len() > 0 && s[0] == '-';
    let t = if s.len() > 0 && (s[0] == '-' || s[0] == '+') {
        s.skip(1)
    } else {
        s
    };
    if digit_prefix_len(t) != 1 {
        None
    } else {
        let u = t.skip(1);
        if u.len() > 0 && u[0] == '.' {
            let k2 = digit_prefix_len(u.skip(1));
            parse_exp_part(neg, seq![t[0]] + u.skip(1).take(k2), u.skip(1).skip(k2))
        } else {
            parse_exp_part(neg, seq![t[0]], u)
        }
    }
}

/// The digit prefix of `u` is exactly the first `k` characters.
pub(crate) proof fn lemma_digit_prefix_len_is(u: Seq<char>, k: int)
    requires
        0 <= k <= u.len(),
        forall|i: int| 0 <= i < k ==> is_digit_char(#[trigger] u[i]),
        k == u.len() || !is_digit_char(u[k]),
    ensures
        digit_prefix_len(u) == k,
    decreases k,
{
    if k > 0 {
        lemma_digit_prefix_len_is(u.skip(1), k - 1);
    }
}


/// Whether a character is a decimal digit: executable form.
fn is_digit_exec(c: char) -> (b: bool)
    ensures
        b == is_digit_char(c),
{
    let u = c as u32;
    48 <= u && u <= 57
}

/// Collects the characters of a string slice.
fn chars_of_str(s: &str) -> (cs: Vec<char>)
    ensures
        cs@ == s@,
{
    let n = s.unicode_len();
    let mut cs: Vec<char> = Vec::new();
    let mut i: usize = 0;
    while i < n
        invariant
            0 <= i <= n,
            n == s@.len(),
            cs@ == s@.take(i as int),
        decreases n - i,
    {
        cs.push(s.get_char(i));
        assert(s@.take(i as int).push(s@[i as int]) =~= s@.take(i + 1));
        i += 1;
    }
    assert(s@.take(n as int) =~= s@);
    cs
}

/// Scans the maximal run of digit characters starting at `from`.
fn scan_digits(cs: &Vec<char>, from: usize) -> (to: usize)
    requires
        from <= cs@.len(),
    ensures
        from <= to <= cs@.len(),
        forall|j: int| from <= j < to ==> is_digit_char(#[trigger] cs@[j]),
        digit_prefix_len(cs@.skip(from as int)) == to - from,
{
    let n = cs.len();
    let mut i = from;
    while i < n && is_digit_exec(cs[i])
        invariant
            from <= i <= n,
            n == cs@.len(),
            forall|j: int| from <= j < i ==> is_digit_char(#[trigger] cs@[j]),
        decreases n - i,
    {
        i += 1;
    }
    proof {
        let u = cs@.skip(from as int);
        assert forall|p: int| 0 <= p < i - from implies is_digit_char(u[p]) by {
            assert(u[p] == cs@[from + p]);
        }
        if i < n {
            assert(u[i - from] == cs@[i as int]);
        }
        lemma_digit_prefix_len_is(u, i - from);
    }
    i
}

/// Parses the exponent part starting at `from` and assembles the
/// decomposition from the already-collected mantissa digits.
#[verifier::rlimit(60)]
fn parse_exp_tail(
    cs: &Vec<char>,
    from: usize,
    neg: bool,
    mant: Vec<u8>,
    Ghost(mant_chars): Ghost<Seq<char>>,
) -> (r: Option<FloatRepr>)
    requires
        from <= cs@.len(),
        mant@ == digit_values(mant_chars),
        mant@.len() == mant_chars.len(),
        mant_chars.len() >= 1,
        forall|p: int| 0 <= p < mant_chars.len() ==> is_digit_char(#[trigger] mant_chars[p]),
    ensures
        match r {
            Some(f) => parse_exp_part(neg, mant_chars, cs@.skip(from as int)) == Some(f@)
                && float_wf(f@),
            None => parse_exp_part(neg, mant_chars, cs@.skip(from as int)) is None,
        },
{
    let ghost srest = cs@.skip(from as int);
    let n = cs.len();
    if from >= n || !(cs[from] == 'e') {
        return None;
    }
    assert(srest[0] == 'e');
    let ghost et = srest.skip(1);
    let mut e_i = from + 1;
    assert(et =~= cs@.skip(e_i as int));
    let mut eneg = false;
    if e_i < n && (cs[e_i] == '-' || cs[e_i] == '+') {
        eneg = cs[e_i] == '-';
        e_i = e_i + 1;
    }
    let ghost ed = if et.len() > 0 && (et[0] == '-' || et[0] == '+') {
        et.skip(1)
    } else {
        et
    };
    assert(ed =~= cs@.skip(e_i as int));
    let estart = e_i;
    let e_end = scan_digits(cs, estart);
    if e_end != n {
        assert(digit_prefix_len(ed) != ed.len());
        return None;
    }
    if e_end == estart {
        assert(ed.len() == 0);
        return None;
    }
    let mut ev: u32 = 0;
    let mut k = estart;
    while k < e_end
        invariant
            estart <= k <= e_end <= n,
            n == cs@.len(),
            ed == cs@.skip(estart as int),
            ed.len() == e_end - estart,
            forall|j: int| estart <= j < e_end ==> is_digit_char(#[trigger] cs@[j]),
            ({
                let dv = digits_value(ed.take(k - estart));
                (dv <= 30000 && ev == dv) || (dv > 30000 && ev > 30000)
            }),
        decreases e_end - k,
    {
        let d = (cs[k] as u32) - 48;
        proof {
            let pre = ed.take(k - estart);
            let nxt = ed.take(k + 1 - estart);
            assert(nxt.drop_last() =~= pre);
            assert(nxt.last() == cs@[k as int]);
        }
        if ev <= 30000 {
            ev = ev * 10 + d;
        }
        k += 1;
    }
    assert(ed.take(e_end - estart) =~= ed);
    if ev > 30000 {
        assert(digits_value(ed) > 30000);
        return None;
    }
    assert(ev == digits_value(ed));
    let e: i32 = if eneg {
        -(ev as i32)
    } else {
        ev as i32
    };
    // Assemble, normalizing zero.
    if mant[0] == 0 {
        let mut all_zero = true;
        let mut z: usize = 1;
        while z < mant.len()
            invariant
                1 <= z <= mant@.len(),
                mant@ == digit_values(mant_chars),
                mant@.len() == mant_chars.len(),
                mant@[0] == 0,
                all_zero == forall|p: int| 0 <= p < z ==> mant@[p] == 0,
            decreases mant@.len() - z,
        {
            if mant[z] != 0 {
                all_zero = false;
            }
            z += 1;
        }
        proof {
            if all_zero {
                assert forall|p: int| 0 <= p < mant_chars.len() implies mant_chars[p]
                    == '0' by {
                    assert(mant@[p] == 0);
                    assert(mant@[p] == digit_value(mant_chars[p]) as u8);
                    assert(is_digit_char(mant_chars[p]));
                }
                assert(all_zero_digits(mant_chars));
            } else {
                assert(exists|p: int| 0 <= p < mant@.len() && mant@[p] != 0);
                let w = choose|p: int| 0 <= p < mant@.len() && mant@[p] != 0;
                assert(mant@[w] == digit_value(mant_chars[w]) as u8);
                assert(is_digit_char(mant_chars[w]));
                assert(mant_chars[w] != '0');
                assert(!all_zero_digits(mant_chars));
            }
        }
        if all_zero {
            let zero = FloatRepr { neg: false, mantissa: Vec::new(), exp: 0 };
            assert(zero@ == (FloatModel { neg: false, mantissa: Seq::<u8>::empty(), exp: 0 }));
            Some(zero)
        } else {
            None
        }
    } else {
        let f = FloatRepr { neg, mantissa: mant, exp: e };
        assert(mant_chars[0] != '0') by {
            assert(digit_values(mant_chars)[0] == digit_value(mant_chars[0]) as u8);
            assert(is_digit_char(mant_chars[0]));
        }
        assert(float_wf(f@)) by {
            assert forall|p: int| 0 <= p < f@.mantissa.len() implies f@.mantissa[p] < 10 by {
                assert(f@.mantissa[p] == digit_value(mant_chars[p]) as u8);
                assert(is_digit_char(mant_chars[p]));
            }
        }
        Some(f)
    }
}

impl FloatRepr {
    /// Parses a float's decimal scientific rendering (such as `2e1`,
    /// `-2.5e-3`, or this library's own canonical forms) into its
    /// decomposition; executable form of [`parse_sci`].
    #[verifier::rlimit(60)]
    pub fn parse_scientific(s: &str) -> (r: Option<FloatRepr>)
        ensures
            match r {
                Some(f) => parse_sci(s@) == Some(f@) && float_wf(f@),
                None => parse_sci(s@) is None,
            },
    {
        let cs = chars_of_str(s);
        let n = cs.len();
        let mut i: usize = 0;
        let mut neg = false;
        if n > 0 && (cs[0] == '-' || cs[0] == '+') {
            neg = cs[0] == '-';
            i = 1;
        }
        let ghost t = s@.skip(i as int);
        proof {
            if i == 0 {
                assert(t =~= s@);
            }
        }
        let start = i;
        let dend = scan_digits(&cs, start);
        if dend - start != 1 {
            return None;
        }
        let lead = cs[start];
        assert(t[0] == s@[start as int]);
        assert(lead == t[0]);
        assert(is_digit_char(t[0]));
        let mut mant: Vec<u8> = Vec::new();
        mant.push(((lead as u32) - 48) as u8);
        let ghost u = t.skip(1);
        assert(u =~= s@.skip(start + 1));
        let mut frac_end = dend;
        let ghost has_frac = u.len() > 0 && u[0] == '.';
        if dend < n && cs[dend] == '.' {
            let fstart = dend + 1;
            let j = scan_digits(&cs, fstart);
            assert(u.skip(1) =~= s@.skip(fstart as int));
            let mut k = fstart;
            while k < j
                invariant
                    fstart <= k <= j <= n,
                    n == s@.len(),
                    cs@ == s@,
                    forall|p: int| fstart <= p < j ==> is_digit_char(#[trigger] s@[p]),
                    mant@.len() == 1 + k - fstart,
                    mant@[0] == digit_value(t[0]) as u8,
                    forall|p: int|
                        1 <= p < mant@.len() ==> mant@[p] == digit_value(
                            #[trigger] s@[fstart + p - 1],
                        ) as u8,
                decreases j - k,
            {
                mant.push(((cs[k] as u32) - 48) as u8);
                k += 1;
            }
            frac_end = j;
            proof {
                let kk = digit_prefix_len(u.skip(1));
                assert(kk == j - fstart);
                let mc = seq![t[0]] + u.skip(1).take(kk);
                assert forall|p: int| 0 <= p < mc.len() implies digit_values(mc)[p]
                    == mant@[p] by {
                    if p == 0 {
                        assert(mc[0] == t[0]);
                    } else {
                        assert(mc[p] == u.skip(1).take(kk)[p - 1]);
                        assert(u.skip(1)[p - 1] == s@[fstart + p - 1]);
                    }
                }
                assert(mant@ =~= digit_values(mc));
            }
        }
        let ghost k2 = if has_frac { digit_prefix_len(u.skip(1)) } else { 0 };
        let ghost mant_chars = if has_frac {
            seq![t[0]] + u.skip(1).take(k2)
        } else {
            seq![t[0]]
        };
        let ghost rest = if has_frac { u.skip(1).skip(k2) } else { u };
        assert(rest =~= s@.skip(frac_end as int));
        proof {
            if !has_frac {
                let mc = seq![t[0]];
                assert(digit_values(mc)[0] == digit_value(t[0]) as u8);
                assert(mant@ =~= digit_values(mc));
            }
        }
        assert(mant@ == digit_values(mant_chars));
        assert(forall|p: int|
            0 <= p < mant_chars.len() ==> is_digit_char(#[trigger] mant_chars[p])) by {
            assert(forall|p: int|
                1 <= p < mant_chars.len() ==> mant_chars[p] == u.skip(1)[p - 1]);
        }
        let r = parse_exp_tail(&cs, frac_end, neg, mant, Ghost(mant_chars));
        proof {
            assert(cs@.skip(frac_end as int) == rest);
            assert(parse_sci(s@) == parse_exp_part(neg, mant_chars, rest));
        }
        r
    }
}

} // verus!
