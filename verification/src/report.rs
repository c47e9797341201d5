//! What a profiling report says about a dataset, computed from the names and counts
//! of its columns: the period its year columns span, the studies and places it
//! covers, cell totals, and the labels of each column card. Ratios, scores and the
//! printing itself are the caller's.
use vstd::prelude::*;
use vstd::utf8::is_char_boundary;
use vstd::string::StringSliceAdditionalSpecFns;
use crate::types::DataType;
use crate::text::{chars_of, strings_view, trim, trimmed, string_from_chars};
use crate::discovery::{contains_text, text_contains, to_lowercase, unicode_lower};
use vstd::relations::{sorted_by, total_ordering};
use vstd::seq_lib::lemma_sorted_unique;

verus! {

// ------------------------------------------------------------- card labels

/// The kind of a column as its card shows it.
pub open spec fn spec_profile_label(is_categorical: bool, data_type: Option<DataType>) -> Seq<char> {
    if is_categorical {
        match data_type {
            Some(DataType::IP) => "Network: IPv4/v6"@,
            Some(DataType::MAC) => "Hardware: MAC"@,
            Some(DataType::ID) => "System ID/Key"@,
            Some(DataType::Boolean) => "Logic: Boolean"@,
            Some(DataType::Email) => "Personal: Email"@,
            Some(DataType::URL) => "Web: URL"@,
            Some(DataType::UUID) => "System: UUID"@,
            Some(DataType::PhoneNumber) => "Contact: Phone"@,
            Some(DataType::JSON) => "Data: Nested JSON"@,
            _ => "Categorical"@,
        }
    } else {
        match data_type {
            Some(DataType::Date) => "Temporal/Date"@,
            _ => "Numeric/Float"@,
        }
    }
}

/// The kind of a column as its card shows it (see `spec_profile_label`).
pub fn profile_label(is_categorical: bool, data_type: Option<DataType>) -> (r: &'static str)
    ensures
        r@ == spec_profile_label(is_categorical, data_type),
{
    if is_categorical {
        match data_type {
            Some(DataType::IP) => "Network: IPv4/v6",
            Some(DataType::MAC) => "Hardware: MAC",
            Some(DataType::ID) => "System ID/Key",
            Some(DataType::Boolean) => "Logic: Boolean",
            Some(DataType::Email) => "Personal: Email",
            Some(DataType::URL) => "Web: URL",
            Some(DataType::UUID) => "System: UUID",
            Some(DataType::PhoneNumber) => "Contact: Phone",
            Some(DataType::JSON) => "Data: Nested JSON",
            _ => "Categorical",
        }
    } else {
        match data_type {
            Some(DataType::Date) => "Temporal/Date",
            _ => "Numeric/Float",
        }
    }
}

/// How the values of a column move: constant, increasing, decreasing, or neither.
pub fn detection_label(is_constant: bool, increasing: bool, decreasing: bool) -> (r: &'static str)
    ensures
        r@ == (if is_constant {
            "Constante"@
        } else if increasing {
            "Incremental (ID?)"@
        } else if decreasing {
            "Decremental"@
        } else {
            "Variable"@
        }),
{
    if is_constant {
        "Constante"
    } else if increasing {
        "Incremental (ID?)"
    } else if decreasing {
        "Decremental"
    } else {
        "Variable"
    }
}

/// The title of a column card: `_unnamed_` for a blank name, else the name in double
/// quotes unless it already starts and ends with one.
pub open spec fn spec_card_title(name: Seq<char>) -> Seq<char> {
    let n = if trim(name).len() == 0 {
        "_unnamed_"@
    } else {
        name
    };
    if n.len() > 0 && n[0] == '"' && n.last() == '"' {
        n
    } else {
        seq!['"'] + n + seq!['"']
    }
}

/// The title of a column card (see `spec_card_title`).
pub fn card_title(name: &str) -> (r: String)
    ensures
        r@ == spec_card_title(name@),
{
    let t = trimmed(name);
    let tc = chars_of(t.as_str());
    let n: Vec<char> = if tc.len() == 0 {
        proof {
            reveal_strlit("_unnamed_");
        }
        chars_of("_unnamed_")
    } else {
        chars_of(name)
    };
    proof {
        if t@.len() == 0 {
            assert(trim(name@).len() == 0);
        }
    }
    let k = n.len();
    if k > 0 && n[0] == '"' && n[k - 1] == '"' {
        return string_from_chars(n.as_slice());
    }
    let mut out: Vec<char> = Vec::new();
    out.push('"');
    let mut i: usize = 0;
    while i < k
        invariant
            i <= k,
            k == n@.len(),
            out@ == seq!['"'] + n@.take(i as int),
        decreases k - i,
    {
        out.push(n[i]);
        proof {
            assert(n@.take(i + 1) =~= n@.take(i as int).push(n@[i as int]));
            assert(out@ =~= seq!['"'] + n@.take(i + 1));
        }
        i = i + 1;
    }
    out.push('"');
    proof {
        assert(n@.take(k as int) =~= n@);
        assert(out@ =~= seq!['"'] + n@ + seq!['"']);
    }
    string_from_chars(out.as_slice())
}

// ------------------------------------------------------------------- years

/// The text without all leading and trailing double quotes.
pub open spec fn strip_quotes(s: Seq<char>) -> Seq<char>
    decreases s.len(),
{
    if s.len() > 0 && s[0] == '"' {
        strip_quotes(s.drop_first())
    } else if s.len() > 0 && s.last() == '"' {
        strip_quotes(s.drop_last())
    } else {
        s
    }
}

pub open spec fn is_digit_char(c: char) -> bool {
    '0' <= c <= '9'
}

/// Every character is a decimal digit.
pub open spec fn all_digits(d: Seq<char>) -> bool {
    forall|i: int| 0 <= i < d.len() ==> is_digit_char(#[trigger] d[i])
}

/// The value of a string of decimal digits.
pub open spec fn digits_value(d: Seq<char>) -> nat
    decreases d.len(),
{
    if d.len() == 0 {
        0
    } else {
        10 * digits_value(d.drop_last()) + ((d.last() as u32) - 0x30) as nat
    }
}

/// The year a column name stands for: after its surrounding quotes, an optional `+`
/// and one or more digits whose value lies strictly between 1900 and 2100.
pub open spec fn year_of(name: Seq<char>) -> Option<u32> {
    let t = strip_quotes(name);
    let d = if t.len() > 0 && t[0] == '+' {
        t.drop_first()
    } else {
        t
    };
    if d.len() > 0 && all_digits(d) && 1900 < digits_value(d) < 2100 {
        Some(digits_value(d) as u32)
    } else {
        None
    }
}

proof fn lemma_digits_value_grows(d: Seq<char>, k: int)
    requires
        0 <= k <= d.len(),
        forall|i: int| 0 <= i < d.len() ==> is_digit_char(#[trigger] d[i]),
    ensures
        digits_value(d.take(k)) <= digits_value(d),
    decreases d.len() - k,
{
    if k < d.len() {
        lemma_digits_value_grows(d, k + 1);
        assert(d.take(k + 1).drop_last() =~= d.take(k));
    } else {
        assert(d.take(k) =~= d);
    }
}

fn strip_quote_chars(s: &Vec<char>) -> (r: Vec<char>)
    ensures
        r@ == strip_quotes(s@),
{
    let n = s.len();
    let mut a: usize = 0;
    let mut b: usize = n;
    proof {
        assert(s@.subrange(0, n as int) =~= s@);
    }
    while a < b && s[a] == '"'
        invariant
            a <= b == n,
            n == s@.len(),
            strip_quotes(s@) == strip_quotes(s@.subrange(a as int, n as int)),
        decreases b - a,
    {
        proof {
            assert(s@.subrange(a as int, n as int).drop_first() =~= s@.subrange(a + 1, n as int));
        }
        a = a + 1;
    }
    while a < b && s[b - 1] == '"'
        invariant
            a <= b <= n,
            n == s@.len(),
            strip_quotes(s@) == strip_quotes(s@.subrange(a as int, b as int)),
            a < b ==> s@[a as int] != '"',
        decreases b - a,
    {
        proof {
            let t = s@.subrange(a as int, b as int);
            assert(t.drop_last() =~= s@.subrange(a as int, b - 1));
            assert(t[0] == s@[a as int]);
        }
        b = b - 1;
    }
    let mut out: Vec<char> = Vec::new();
    let mut i: usize = a;
    while i < b
        invariant
            a <= i <= b <= n,
            n == s@.len(),
            out@ == s@.subrange(a as int, i as int),
        decreases b - i,
    {
        out.push(s[i]);
        proof {
            assert(out@ =~= s@.subrange(a as int, i + 1));
        }
        i = i + 1;
    }
    proof {
        let t = s@.subrange(a as int, b as int);
        if t.len() > 0 {
            assert(t[0] == s@[a as int]);
            assert(t.last() == s@[b - 1]);
        }
    }
    out
}

/// The year a column name stands for (see `year_of`).
pub fn column_year(name: &str) -> (r: Option<u32>)
    ensures
        r == year_of(name@),
{
    let cs = chars_of(name);
    let t = strip_quote_chars(&cs);
    let start: usize = if t.len() > 0 && t[0] == '+' {
        1
    } else {
        0
    };
    let ghost d = if t@.len() > 0 && t@[0] == '+' {
        t@.drop_first()
    } else {
        t@
    };
    proof {
        assert(d =~= t@.subrange(start as int, t@.len() as int));
    }
    if start == t.len() {
        return None;
    }
    let mut value: u32 = 0;
    let mut i: usize = start;
    while i < t.len()
        invariant
            start <= i <= t@.len(),
            d == t@.subrange(start as int, t@.len() as int),
            t@ == strip_quotes(name@),
            d == (if t@.len() > 0 && t@[0] == '+' {
                t@.drop_first()
            } else {
                t@
            }),
            value < 2100,
            value == digits_value(d.take(i - start)),
            forall|j: int| 0 <= j < i - start ==> is_digit_char(#[trigger] d[j]),
        decreases t@.len() - i,
    {
        let c = t[i];
        if !('0' <= c && c <= '9') {
            proof {
                assert(d[i - start] == c);
                assert(!is_digit_char(d[i - start]));
                assert(!all_digits(d));
            }
            return None;
        }
        proof {
            assert(d[i - start] == c);
            assert(d.take(i - start + 1).drop_last() =~= d.take(i - start));
            assert(d.take(i - start + 1).last() == c);
        }
        let v = value * 10 + ((c as u32) - 0x30);
        proof {
            assert(v == digits_value(d.take(i - start + 1)));
        }
        if v >= 2100 {
            proof {
                if all_digits(d) {
                    lemma_digits_value_grows(d, i - start + 1);
                }
            }
            return None;
        }
        value = v;
        i = i + 1;
    }
    proof {
        assert(d.take(d.len() as int) =~= d);
    }
    if value > 1900 {
        Some(value)
    } else {
        None
    }
}

// ------------------------------------------------------- executive summary

/// What the executive summary needs to know of one column.
pub struct ColumnFacts {
    pub name: String,
    pub count: u64,
    pub null_count: u64,
    pub distinct_count: u64,
    pub is_categorical: bool,
    /// The column's most frequent values, most frequent first.
    pub categories: Vec<String>,
}

pub struct ColumnFactsView {
    pub name: Seq<char>,
    pub count: u64,
    pub null_count: u64,
    pub distinct_count: u64,
    pub is_categorical: bool,
    pub categories: Seq<Seq<char>>,
}

impl View for ColumnFacts {
    type V = ColumnFactsView;

    open spec fn view(&self) -> ColumnFactsView {
        ColumnFactsView {
            name: self.name@,
            count: self.count,
            null_count: self.null_count,
            distinct_count: self.distinct_count,
            is_categorical: self.is_categorical,
            categories: strings_view(self.categories@),
        }
    }
}

pub open spec fn facts_view(cols: Seq<ColumnFacts>) -> Seq<ColumnFactsView> {
    cols.map_values(|c: ColumnFacts| c@)
}

/// What the summary reports of a dataset.
pub struct ExecutiveFacts {
    /// The years that numeric column names stand for, in increasing order.
    pub years: Vec<u32>,
    /// The studies named by categorical "indicator" columns, each once.
    pub indicators: Vec<String>,
    /// The most distinct places a categorical "country" or "location" column holds.
    pub locations: u64,
    /// Empty cells, and all cells, of the columns that hold values.
    pub total_nulls: u64,
    pub total_values: u64,
    /// The dataset is a folder: its name ends in a separator or has no `.`.
    pub is_dir: bool,
}

/// A column naming studies: its lowercase name mentions an indicator or a series.
pub open spec fn names_study(name: Seq<char>) -> bool {
    let l = unicode_lower(name);
    text_contains(l, "indicator"@) || text_contains(l, "indicador"@) || text_contains(l, "series name"@)
}

/// A column naming places: its lowercase name mentions a country or a location.
pub open spec fn names_place(name: Seq<char>) -> bool {
    let l = unicode_lower(name);
    text_contains(l, "country"@) || text_contains(l, "país"@) || text_contains(l, "location"@)
}

pub open spec fn year_list(cols: Seq<ColumnFactsView>) -> Seq<u32>
    decreases cols.len(),
{
    if cols.len() == 0 {
        Seq::empty()
    } else {
        let c = cols.last();
        year_list(cols.drop_last()) + if !c.is_categorical && year_of(c.name) is Some {
            seq![year_of(c.name)->0]
        } else {
            Seq::empty()
        }
    }
}

/// `list` followed by the non-empty entries of `more` that it does not hold yet,
/// each once, in order.
pub open spec fn add_new(list: Seq<Seq<char>>, more: Seq<Seq<char>>) -> Seq<Seq<char>>
    decreases more.len(),
{
    if more.len() == 0 {
        list
    } else {
        let l = add_new(list, more.drop_last());
        let m = more.last();
        if m.len() > 0 && !l.contains(m) {
            l.push(m)
        } else {
            l
        }
    }
}

pub open spec fn indicator_list(cols: Seq<ColumnFactsView>) -> Seq<Seq<char>>
    decreases cols.len(),
{
    if cols.len() == 0 {
        Seq::empty()
    } else {
        let c = cols.last();
        let l = indicator_list(cols.drop_last());
        if c.is_categorical && names_study(c.name) {
            add_new(l, c.categories)
        } else {
            l
        }
    }
}

pub open spec fn location_max(cols: Seq<ColumnFactsView>) -> u64
    decreases cols.len(),
{
    if cols.len() == 0 {
        0
    } else {
        let c = cols.last();
        let m = location_max(cols.drop_last());
        if c.is_categorical && names_place(c.name) && c.distinct_count > m {
            c.distinct_count
        } else {
            m
        }
    }
}

pub open spec fn null_total(cols: Seq<ColumnFactsView>) -> int
    decreases cols.len(),
{
    if cols.len() == 0 {
        0
    } else {
        null_total(cols.drop_last()) + if cols.last().count > 0 {
            cols.last().null_count as int
        } else {
            0
        }
    }
}

pub open spec fn value_total(cols: Seq<ColumnFactsView>) -> int
    decreases cols.len(),
{
    if cols.len() == 0 {
        0
    } else {
        value_total(cols.drop_last()) + if cols.last().count > 0 {
            cols.last().count + cols.last().null_count
        } else {
            0
        }
    }
}

pub open spec fn spec_is_dir(file_name: Seq<char>) -> bool {
    (file_name.len() > 0 && (file_name.last() == '/' || file_name.last() == '\\')) || !file_name.contains('.')
}

pub open spec fn u32_leq() -> spec_fn(u32, u32) -> bool {
    |a: u32, b: u32| a <= b
}

proof fn lemma_u32_leq_total()
    ensures
        total_ordering(u32_leq()),
{
}

proof fn lemma_totals_nonneg(cols: Seq<ColumnFactsView>)
    ensures
        null_total(cols) >= 0,
        value_total(cols) >= 0,
    decreases cols.len(),
{
    if cols.len() > 0 {
        lemma_totals_nonneg(cols.drop_last());
    }
}

proof fn lemma_totals_grow(cols: Seq<ColumnFactsView>, k: int)
    requires
        0 <= k <= cols.len(),
    ensures
        null_total(cols.take(k)) <= null_total(cols),
        value_total(cols.take(k)) <= value_total(cols),
    decreases cols.len() - k,
{
    if k < cols.len() {
        lemma_totals_grow(cols, k + 1);
        assert(cols.take(k + 1).drop_last() =~= cols.take(k));
    } else {
        assert(cols.take(k) =~= cols);
    }
}

fn contains_word(hay: &Vec<char>, w: &str) -> (r: bool)
    ensures
        r == text_contains(hay@, w@),
{
    let n = chars_of(w);
    contains_text(hay, &n)
}

fn holds_text(list: &Vec<String>, x: &Vec<char>) -> (r: bool)
    ensures
        r == strings_view(list@).contains(x@),
{
    let mut i: usize = 0;
    while i < list.len()
        invariant
            i <= list@.len(),
            forall|j: int| 0 <= j < i ==> list@[j]@ != x@,
        decreases list@.len() - i,
    {
        let c = chars_of(list[i].as_str());
        if crate::text::chars_eq(c.as_slice(), x.as_slice()) {
            proof {
                assert(strings_view(list@)[i as int] == x@);
            }
            return true;
        }
        i = i + 1;
    }
    proof {
        if strings_view(list@).contains(x@) {
            let j = choose|j: int| 0 <= j < strings_view(list@).len() && strings_view(list@)[j] == x@;
            assert(list@[j]@ == x@);
        }
    }
    false
}

/// Inserts `y` into a sorted list, after the values not above it.
fn insert_year(v: &mut Vec<u32>, y: u32)
    requires
        sorted_by(old(v)@, u32_leq()),
    ensures
        sorted_by(final(v)@, u32_leq()),
        final(v)@.to_multiset() == old(v)@.to_multiset().insert(y),
{
    let mut p: usize = 0;
    while p < v.len() && v[p] <= y
        invariant
            p <= v@.len(),
            forall|q: int| 0 <= q < p ==> v@[q] <= y,
        decreases v@.len() - p,
    {
        p = p + 1;
    }
    let ghost old_v = v@;
    proof {
        vstd::seq_lib::to_multiset_insert(old_v, p as int, y);
    }
    v.insert(p, y);
    proof {
        let w = v@;
        assert(w =~= old_v.insert(p as int, y));
        assert forall|i: int, j: int| 0 <= i < j < w.len() implies #[trigger] u32_leq()(w[i], w[j]) by {
            if j < p {
                assert(u32_leq()(old_v[i], old_v[j]));
            } else if j == p {
            } else if i < p {
                assert(u32_leq()(old_v[i], old_v[j - 1]));
            } else if i == p {
                assert(u32_leq()(old_v[p as int], old_v[j - 1]) || p as int == j - 1);
            } else {
                assert(u32_leq()(old_v[i - 1], old_v[j - 1]));
            }
        }
    }
}

/// The facts of the executive summary of a dataset named `file_name` whose columns
/// are `cols`.
pub fn executive_facts(file_name: &str, cols: &[ColumnFacts]) -> (r: ExecutiveFacts)
    requires
        value_total(facts_view(cols@)) <= u64::MAX,
    ensures
        r.years@ == year_list(facts_view(cols@)).sort_by(u32_leq()),
        strings_view(r.indicators@) == indicator_list(facts_view(cols@)),
        r.locations == location_max(facts_view(cols@)),
        r.total_nulls == null_total(facts_view(cols@)),
        r.total_values == value_total(facts_view(cols@)),
        r.is_dir == spec_is_dir(file_name@),
{
    let ghost cv = facts_view(cols@);
    let mut years: Vec<u32> = Vec::new();
    let mut indicators: Vec<String> = Vec::new();
    let mut locations: u64 = 0;
    let mut total_nulls: u64 = 0;
    let mut total_values: u64 = 0;
    let mut k: usize = 0;
    while k < cols.len()
        invariant
            k <= cols@.len(),
            cv == facts_view(cols@),
            value_total(cv) <= u64::MAX,
            sorted_by(years@, u32_leq()),
            years@.to_multiset() == year_list(cv.take(k as int)).to_multiset(),
            strings_view(indicators@) == indicator_list(cv.take(k as int)),
            locations == location_max(cv.take(k as int)),
            total_nulls == null_total(cv.take(k as int)),
            total_values == value_total(cv.take(k as int)),
        decreases cols@.len() - k,
    {
        let c = &cols[k];
        let ghost t1 = cv.take(k + 1);
        proof {
            assert(t1.drop_last() =~= cv.take(k as int));
            assert(t1.last() == c@);
            lemma_totals_grow(cv, k + 1);
            lemma_totals_nonneg(cv.take(k as int));
            lemma_null_le_value(t1);
        }
        if c.count > 0 {
            total_nulls = total_nulls + c.null_count;
            total_values = total_values + (c.count + c.null_count);
        }
        if c.is_categorical {
            let low = chars_of(to_lowercase(c.name.as_str()).as_str());
            if contains_word(&low, "indicator") || contains_word(&low, "indicador") || contains_word(
                &low,
                "series name",
            ) {
                let mut j: usize = 0;
                let ghost base = strings_view(indicators@);
                while j < c.categories.len()
                    invariant
                        j <= c.categories@.len(),
                        strings_view(indicators@) == add_new(base, strings_view(c.categories@).take(j as int)),
                    decreases c.categories@.len() - j,
                {
                    let cat = chars_of(c.categories[j].as_str());
                    let ghost cs = strings_view(c.categories@);
                    proof {
                        assert(cs.take(j + 1).drop_last() =~= cs.take(j as int));
                        assert(cs.take(j + 1).last() == cat@);
                    }
                    if cat.len() > 0 && !holds_text(&indicators, &cat) {
                        let ghost before = strings_view(indicators@);
                        indicators.push(string_from_chars(cat.as_slice()));
                        proof {
                            assert(strings_view(indicators@) =~= before.push(cat@));
                        }
                    }
                    j = j + 1;
                }
                proof {
                    assert(strings_view(c.categories@).take(c.categories@.len() as int) =~= strings_view(
                        c.categories@,
                    ));
                }
            }
            if contains_word(&low, "country") || contains_word(&low, "país") || contains_word(&low, "location") {
                if c.distinct_count > locations {
                    locations = c.distinct_count;
                }
            }
        } else {
            match column_year(c.name.as_str()) {
                Some(y) => {
                    insert_year(&mut years, y);
                    proof {
                        vstd::seq_lib::to_multiset_build(year_list(cv.take(k as int)), y);
                        assert(year_list(t1) =~= year_list(cv.take(k as int)).push(y));
                    }
                },
                None => {
                    proof {
                        assert(year_list(t1) =~= year_list(cv.take(k as int)));
                    }
                },
            }
        }
        proof {
            if c.is_categorical {
                assert(year_list(t1) =~= year_list(cv.take(k as int)));
            }
        }
        k = k + 1;
    }
    proof {
        assert(cv.take(cols@.len() as int) =~= cv);
        let ys = year_list(cv);
        ys.lemma_sort_by_ensures(u32_leq());
        lemma_u32_leq_total();
        lemma_sorted_unique(years@, ys.sort_by(u32_leq()), u32_leq());
    }
    let name = chars_of(file_name);
    let n = name.len();
    let ends_sep = n > 0 && (name[n - 1] == '/' || name[n - 1] == '\\');
    let mut has_dot = false;
    let mut i: usize = 0;
    while i < n
        invariant
            i <= n,
            n == name@.len(),
            has_dot == exists|j: int| 0 <= j < i && name@[j] == '.',
        decreases n - i,
    {
        if name[i] == '.' {
            has_dot = true;
        }
        i = i + 1;
    }
    ExecutiveFacts { years, indicators, locations, total_nulls, total_values, is_dir: ends_sep || !has_dot }
}

proof fn lemma_null_le_value(cols: Seq<ColumnFactsView>)
    ensures
        null_total(cols) <= value_total(cols),
    decreases cols.len(),
{
    if cols.len() > 0 {
        lemma_null_le_value(cols.drop_last());
    }
}

/// The longest prefix of `k` (in bytes) that ends on a character boundary and is at
/// most `limit` bytes long.
pub open spec fn boundary_cut(bytes: Seq<u8>, limit: int) -> int {
    choose|m: int|
        0 <= m <= limit && is_char_boundary(bytes, m) && forall|j: int|
            m < j <= limit ==> !is_char_boundary(bytes, j)
}

/// How a category name is shown in a card: a name over 12 bytes is cut to the longest
/// prefix of whole characters within 9 bytes, marked as cut (`true`) so that `...`
/// follows it; a shorter name is shown whole.
pub fn category_label(k: &str) -> (r: (&str, bool))
    ensures
        r.1 == (k.spec_bytes().len() > 12),
        r.1 ==> r.0.spec_bytes() == k.spec_bytes().subrange(0, boundary_cut(k.spec_bytes(), 9)),
        !r.1 ==> r.0@ == k@,
{
    proof {
        vstd::utf8::encode_utf8_valid_utf8(k@);
    }
    let bytes = k.as_bytes();
    if bytes.len() <= 12 {
        return (k, false);
    }
    let mut m: usize = 9;
    while m > 0 && !k.is_char_boundary(m)
        invariant
            m <= 9,
            vstd::utf8::valid_utf8(k.spec_bytes()),
            k.spec_bytes().len() > 12,
            forall|j: int| m < j <= 9 ==> !is_char_boundary(k.spec_bytes(), j),
        decreases m,
    {
        m = m - 1;
    }
    proof {
        assert(is_char_boundary(k.spec_bytes(), m as int));
        let c = boundary_cut(k.spec_bytes(), 9);
        assert(0 <= m <= 9 && is_char_boundary(k.spec_bytes(), m as int) && forall|j: int|
            m < j <= 9 ==> !is_char_boundary(k.spec_bytes(), j));
        assert(0 <= c <= 9 && is_char_boundary(k.spec_bytes(), c) && forall|j: int|
            c < j <= 9 ==> !is_char_boundary(k.spec_bytes(), j));
        if c < m {
            assert(!is_char_boundary(k.spec_bytes(), m as int));
        }
        if m < c {
            assert(!is_char_boundary(k.spec_bytes(), c));
        }
    }
    let (head, _) = k.split_at(m);
    (head, true)
}

} // verus!
