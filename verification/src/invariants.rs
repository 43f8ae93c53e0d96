//! What holds of all elements that were left out: fields that are constant, ranges, counts.
use crate::json::{float_bits, pair_views, parse_bits, same_double};
use crate::order::{
    arranged, ascending_below, distinct_below, ints, order_by, signed_keys, stable_order,
    stable_order_sorts, sum,
};
use crate::patterns::{regex_is_match, Pattern};
use crate::text::{
    all_digits, byte_len, bytes_in, copy_str, dec, decimal_usize, digits_value, has_char, holds,
    holds_text, is_digit, join, join_texts, lemma_text_less_irreflexive, lemma_text_less_transitive,
    lemma_views_push, option_view, parse_u64, parse_unsigned, same_text, slice_text, text_before,
    text_has_char, text_less, to_chars, views,
};
use vstd::prelude::*;

verus! {

broadcast use lemma_views_push;

/// One element, as its named values.
pub struct Unit {
    pub fields: Vec<(String, String)>,
}

pub type UnitModel = Seq<(Seq<char>, Seq<char>)>;

impl View for Unit {
    type V = UnitModel;

    open spec fn view(&self) -> UnitModel {
        pair_views(self.fields@)
    }
}

pub open spec fn unit_models(units: Seq<Unit>) -> Seq<UnitModel> {
    Seq::new(units.len(), |i: int| units[i]@)
}

/// The value of the first field named `name`.
pub open spec fn value_of(unit: UnitModel, name: Seq<char>) -> Option<Seq<char>>
    decreases unit.len(),
{
    if unit.len() == 0 {
        None
    } else if unit[0].0 == name {
        Some(unit[0].1)
    } else {
        value_of(unit.drop_first(), name)
    }
}

impl Unit {
    pub fn new(fields: Vec<(String, String)>) -> (u: Unit)
        ensures
            u.fields@ == fields@,
            u@ == pair_views(fields@),
    {
        Unit { fields }
    }

    fn get(&self, name: &str) -> (r: Option<&String>)
        ensures
            r is Some <==> value_of(self@, name@) is Some,
            r matches Some(s) ==> value_of(self@, name@) == Some(s@),
    {
        let mut i: usize = 0;
        assert(self@.skip(0) =~= self@);
        while i < self.fields.len()
            invariant
                i <= self.fields@.len(),
                value_of(self@.skip(i as int), name@) == value_of(self@, name@),
            decreases self.fields.len() - i,
        {
            assert(self@.skip(i as int)[0] == (self.fields@[i as int].0@, self.fields@[i as int].1@));
            assert(self@.skip(i as int).drop_first() =~= self@.skip(i + 1));
            if same_text(self.fields[i].0.as_str(), name) {
                return Some(&self.fields[i].1);
            }
            i = i + 1;
        }
        None
    }
}

pub struct InvariantConfig {
    /// A field with more different values is not enumerated.
    pub max_enum_values: usize,
    /// A value of so many bytes or more withholds its whole field.
    pub max_value_len: usize,
    /// How many bytes a description takes at most.
    pub max_marker_bytes: usize,
}

impl Default for InvariantConfig {
    fn default() -> (c: InvariantConfig)
        ensures
            c.max_enum_values == 5,
            c.max_value_len == 24,
            c.max_marker_bytes == 160,
    {
        InvariantConfig { max_enum_values: 5, max_value_len: 24, max_marker_bytes: 160 }
    }
}

// ---------------------------------------------------------------------------
// Names and values
// ---------------------------------------------------------------------------

/// The texts without those that came before.
pub open spec fn distinct(texts: Seq<Seq<char>>) -> Seq<Seq<char>>
    decreases texts.len(),
{
    if texts.len() == 0 {
        seq![]
    } else {
        let before = distinct(texts.drop_last());
        if holds(before, texts.last()) {
            before
        } else {
            before.push(texts.last())
        }
    }
}

/// All field names, unit by unit.
pub open spec fn all_names(units: Seq<UnitModel>) -> Seq<Seq<char>>
    decreases units.len(),
{
    if units.len() == 0 {
        seq![]
    } else {
        all_names(units.drop_last()) + unit_names(units.last())
    }
}

pub open spec fn unit_names(unit: UnitModel) -> Seq<Seq<char>> {
    Seq::new(unit.len(), |i: int| unit[i].0)
}

/// The values that a field has in the units that have it.
pub open spec fn present_values(units: Seq<UnitModel>, name: Seq<char>) -> Seq<Seq<char>>
    decreases units.len(),
{
    if units.len() == 0 {
        seq![]
    } else {
        let before = present_values(units.drop_last(), name);
        match value_of(units.last(), name) {
            Some(v) => before.push(v),
            None => before,
        }
    }
}

pub open spec fn count_of(texts: Seq<Seq<char>>, t: Seq<char>) -> nat
    decreases texts.len(),
{
    if texts.len() == 0 {
        0
    } else {
        count_of(texts.drop_last(), t) + if texts.last() == t {
            1nat
        } else {
            0nat
        }
    }
}

proof fn lemma_distinct_len(texts: Seq<Seq<char>>)
    ensures
        distinct(texts).len() <= texts.len(),
        texts.len() > 0 ==> distinct(texts).len() > 0,
    decreases texts.len(),
{
    if texts.len() > 0 {
        lemma_distinct_len(texts.drop_last());
        if texts.len() == 1 {
            let before = distinct(texts.drop_last());
            assert(before.len() == 0);
            assert(!holds(before, texts.last()));
        }
    }
}

fn push_distinct(out: &mut Vec<String>, t: &str)
    ensures
        views(final(out)@) == (if holds(views(old(out)@), t@) {
            views(old(out)@)
        } else {
            views(old(out)@).push(t@)
        }),
{
    if !holds_text(out, t) {
        out.push(copy_str(t));
    }
}

fn distinct_texts(v: &Vec<String>) -> (out: Vec<String>)
    ensures
        views(out@) == distinct(views(v@)),
{
    let ghost all = views(v@);
    let mut out: Vec<String> = Vec::new();
    let mut i: usize = 0;
    assert(all.take(0) =~= seq![]);
    assert(views(out@) =~= distinct(all.take(0)));
    while i < v.len()
        invariant
            i <= v@.len(),
            all == views(v@),
            views(out@) == distinct(all.take(i as int)),
        decreases v.len() - i,
    {
        assert(all.take(i + 1).drop_last() =~= all.take(i as int));
        assert(all.take(i + 1).last() == v@[i as int]@);
        push_distinct(&mut out, v[i].as_str());
        i = i + 1;
    }
    assert(all.take(all.len() as int) =~= all);
    out
}

fn field_names(units: &[Unit]) -> (out: Vec<String>)
    ensures
        views(out@) == distinct(all_names(unit_models(units@))),
{
    let ghost us = unit_models(units@);
    let mut names: Vec<String> = Vec::new();
    let mut i: usize = 0;
    assert(us.take(0) =~= seq![]);
    assert(views(names@) =~= all_names(us.take(0)));
    while i < units.len()
        invariant
            i <= units@.len(),
            us == unit_models(units@),
            views(names@) == all_names(us.take(i as int)),
        decreases units.len() - i,
    {
        let ghost before = views(names@);
        let fields = &units[i].fields;
        let ghost un = unit_names(us[i as int]);
        let mut j: usize = 0;
        assert(before + un.take(0) =~= before);
        while j < fields.len()
            invariant
                j <= fields@.len(),
                un == unit_names(pair_views(fields@)),
                views(names@) == before + un.take(j as int),
            decreases fields.len() - j,
        {
            names.push(fields[j].0.clone());
            assert(before + un.take(j + 1) =~= (before + un.take(j as int)).push(fields@[j as int].0@));
            j = j + 1;
        }
        assert(un.take(un.len() as int) =~= un);
        assert(us.take(i + 1).drop_last() =~= us.take(i as int));
        assert(us.take(i + 1).last() == us[i as int]);
        i = i + 1;
    }
    assert(us.take(us.len() as int) =~= us);
    distinct_texts(&names)
}

fn collect_present(units: &[Unit], name: &str) -> (out: Vec<String>)
    ensures
        views(out@) == present_values(unit_models(units@), name@),
        out@.len() <= units@.len(),
{
    let ghost us = unit_models(units@);
    let mut out: Vec<String> = Vec::new();
    let mut i: usize = 0;
    assert(us.take(0) =~= seq![]);
    assert(views(out@) =~= present_values(us.take(0), name@));
    while i < units.len()
        invariant
            i <= units@.len(),
            us == unit_models(units@),
            out@.len() <= i,
            views(out@) == present_values(us.take(i as int), name@),
        decreases units.len() - i,
    {
        assert(us.take(i + 1).drop_last() =~= us.take(i as int));
        assert(us.take(i + 1).last() == units@[i as int]@);
        match units[i].get(name) {
            Some(v) => {
                out.push(v.clone());
            },
            None => {},
        }
        i = i + 1;
    }
    assert(us.take(us.len() as int) =~= us);
    out
}

fn count_text(v: &Vec<String>, t: &str) -> (n: usize)
    ensures
        n == count_of(views(v@), t@),
{
    let ghost all = views(v@);
    let mut n: usize = 0;
    let mut i: usize = 0;
    assert(all.take(0) =~= seq![]);
    while i < v.len()
        invariant
            n <= i <= v@.len(),
            all == views(v@),
            n == count_of(all.take(i as int), t@),
        decreases v.len() - i,
    {
        assert(all.take(i + 1).drop_last() =~= all.take(i as int));
        assert(all.take(i + 1).last() == v@[i as int]@);
        if same_text(v[i].as_str(), t) {
            n = n + 1;
        }
        i = i + 1;
    }
    assert(all.take(all.len() as int) =~= all);
    n
}

// ---------------------------------------------------------------------------
// Numbers
// ---------------------------------------------------------------------------

/// The magnitude of a double with its sign, or nothing where it is no number.
pub open spec fn double_rank(bits: u64) -> Option<int> {
    let negative = bits >= 0x8000_0000_0000_0000;
    let magnitude = if negative {
        bits - 0x8000_0000_0000_0000
    } else {
        bits as int
    };
    if magnitude > 0x7ff0_0000_0000_0000 {
        None
    } else if negative {
        Some(-magnitude)
    } else {
        Some(magnitude)
    }
}

/// Whether the first double is less than the second, by their bits.
pub open spec fn double_less(a: u64, b: u64) -> bool {
    match (double_rank(a), double_rank(b)) {
        (Some(x), Some(y)) => x < y,
        _ => false,
    }
}

fn is_less(a: u64, b: u64) -> (r: bool)
    ensures
        r == double_less(a, b),
{
    let na = a >= 0x8000_0000_0000_0000;
    let nb = b >= 0x8000_0000_0000_0000;
    let ma: u64 = if na {
        a - 0x8000_0000_0000_0000
    } else {
        a
    };
    let mb: u64 = if nb {
        b - 0x8000_0000_0000_0000
    } else {
        b
    };
    if ma > 0x7ff0_0000_0000_0000 || mb > 0x7ff0_0000_0000_0000 {
        return false;
    }
    if na && nb {
        mb < ma
    } else if na {
        ma > 0 || mb > 0
    } else if nb {
        false
    } else {
        ma < mb
    }
}

/// Whether the text reads as the double with the bits.
spec fn reads_as(text: Seq<char>, bits: u64) -> bool {
    float_bits(text) is Some && same_double(bits, float_bits(text)->0)
}

/// All texts read as numbers.
pub open spec fn all_numbers(texts: Seq<Seq<char>>) -> bool {
    forall|i: int| 0 <= i < texts.len() ==> float_bits(#[trigger] texts[i]) is Some
}

/// The index of the first of the least of the first `n` numbers.
pub open spec fn least_index(texts: Seq<Seq<char>>, n: nat) -> int
    decreases n,
{
    if n <= 1 {
        0
    } else {
        let before = least_index(texts, (n - 1) as nat);
        if double_less(float_bits(texts[n - 1])->0, float_bits(texts[before])->0) {
            n - 1
        } else {
            before
        }
    }
}

/// The index of the first of the greatest of the first `n` numbers.
pub open spec fn greatest_index(texts: Seq<Seq<char>>, n: nat) -> int
    decreases n,
{
    if n <= 1 {
        0
    } else {
        let before = greatest_index(texts, (n - 1) as nat);
        if double_less(float_bits(texts[before])->0, float_bits(texts[n - 1])->0) {
            n - 1
        } else {
            before
        }
    }
}

fn parse_numbers(v: &Vec<String>) -> (r: Option<Vec<u64>>)
    ensures
        r is Some <==> all_numbers(views(v@)),
        r matches Some(nums) ==> nums@.len() == v@.len() && forall|i: int|
            0 <= i < nums@.len() ==> reads_as(v@[i]@, #[trigger] nums@[i]),
{
    let mut nums: Vec<u64> = Vec::new();
    let mut i: usize = 0;
    while i < v.len()
        invariant
            i <= v@.len(),
            nums@.len() == i,
            forall|j: int| 0 <= j < i ==> reads_as(v@[j]@, #[trigger] nums@[j]),
        decreases v.len() - i,
    {
        match parse_bits(v[i].as_str()) {
            Some(b) => {
                nums.push(b);
            },
            None => {
                assert(float_bits(views(v@)[i as int]) is None);
                return None;
            },
        }
        i = i + 1;
    }
    assert forall|j: int| 0 <= j < v@.len() implies float_bits(#[trigger] views(v@)[j]) is Some by {
        assert(reads_as(v@[j]@, nums@[j]));
    }
    Some(nums)
}

fn find_extremes(v: &Vec<String>, nums: &Vec<u64>) -> (r: (usize, usize))
    requires
        v@.len() > 0,
        nums@.len() == v@.len(),
        forall|i: int| 0 <= i < nums@.len() ==> reads_as(v@[i]@, #[trigger] nums@[i]),
    ensures
        r.0 == least_index(views(v@), v@.len()),
        r.1 == greatest_index(views(v@), v@.len()),
        r.0 < v@.len(),
        r.1 < v@.len(),
{
    let ghost all = views(v@);
    let mut lo: usize = 0;
    let mut hi: usize = 0;
    let mut i: usize = 1;
    while i < nums.len()
        invariant
            1 <= i <= nums@.len() == v@.len(),
            all == views(v@),
            forall|i: int| 0 <= i < nums@.len() ==> reads_as(v@[i]@, #[trigger] nums@[i]),
            lo == least_index(all, i as nat),
            hi == greatest_index(all, i as nat),
            lo < i,
            hi < i,
        decreases nums.len() - i,
    {
        assert(reads_as(all[i as int], nums@[i as int]));
        assert(reads_as(all[lo as int], nums@[lo as int]));
        assert(reads_as(all[hi as int], nums@[hi as int]));
        if is_less(nums[i], nums[lo]) {
            lo = i;
        }
        if is_less(nums[hi], nums[i]) {
            hi = i;
        }
        i = i + 1;
    }
    (lo, hi)
}

// ---------------------------------------------------------------------------
// Names with numbers at their end
// ---------------------------------------------------------------------------

/// How many ASCII digits the text ends in.
pub open spec fn end_digits(s: Seq<char>) -> nat
    decreases s.len(),
{
    if s.len() == 0 || !is_digit(s.last()) {
        0
    } else {
        1 + end_digits(s.drop_last())
    }
}

pub open spec fn name_part(s: Seq<char>) -> Seq<char> {
    s.take(s.len() - end_digits(s))
}

pub open spec fn number_part(s: Seq<char>) -> Seq<char> {
    s.skip(s.len() - end_digits(s))
}

/// A name, then digits that read as a number.
pub open spec fn is_numbered(s: Seq<char>) -> bool {
    0 < end_digits(s) < s.len() && parse_unsigned(number_part(s), u64::MAX as nat) is Some
}

pub open spec fn number_of(s: Seq<char>) -> int {
    match parse_unsigned(number_part(s), u64::MAX as nat) {
        Some(n) => n as int,
        None => 0,
    }
}

pub open spec fn least_number(texts: Seq<Seq<char>>) -> int
    decreases texts.len(),
{
    if texts.len() <= 1 {
        number_of(texts[0])
    } else {
        let before = least_number(texts.drop_last());
        let n = number_of(texts.last());
        if n < before {
            n
        } else {
            before
        }
    }
}

pub open spec fn greatest_number(texts: Seq<Seq<char>>) -> int
    decreases texts.len(),
{
    if texts.len() <= 1 {
        number_of(texts[0])
    } else {
        let before = greatest_number(texts.drop_last());
        let n = number_of(texts.last());
        if n > before {
            n
        } else {
            before
        }
    }
}

/// The same name before numbers of the same width, and as many texts as numbers from the least to the
/// greatest.
pub open spec fn is_dense(texts: Seq<Seq<char>>) -> bool {
    &&& forall|i: int|
        0 <= i < texts.len() ==> is_numbered(#[trigger] texts[i]) && name_part(texts[i]) == name_part(
            texts[0],
        ) && end_digits(texts[i]) == end_digits(texts[0])
    &&& greatest_number(texts) - least_number(texts) + 1 == texts.len()
}

fn count_end_digits(v: &Vec<char>) -> (n: usize)
    ensures
        n == end_digits(v@),
        n <= v@.len(),
{
    let total: usize = v.len();
    let mut n: usize = 0;
    assert(v@.take(total as int) =~= v@);
    while n < total && '0' <= v[total - 1 - n] && v[total - 1 - n] <= '9'
        invariant
            n <= total == v@.len(),
            end_digits(v@) == n + end_digits(v@.take(total - n)),
        decreases total - n,
    {
        let ghost part = v@.take(total - n);
        assert(part.last() == v@[total - 1 - n]);
        assert(part.drop_last() =~= v@.take(total - n - 1));
        n = n + 1;
    }
    n
}

fn check_dense(values: &Vec<String>) -> (b: bool)
    requires
        values@.len() > 0,
    ensures
        b == is_dense(views(values@)),
{
    let ghost all = views(values@);
    let first = to_chars(values[0].as_str());
    let width = count_end_digits(&first);
    let name = slice_text(&first, 0, first.len() - width);
    assert(all[0] == first@);
    assert(name@ =~= name_part(all[0]));
    let mut least: u64 = 0;
    let mut greatest: u64 = 0;
    let mut i: usize = 0;
    while i < values.len()
        invariant
            i <= values@.len(),
            all == views(values@),
            all.len() > 0,
            name@ == name_part(all[0]),
            width == end_digits(all[0]),
            forall|j: int|
                0 <= j < i ==> is_numbered(#[trigger] all[j]) && name_part(all[j]) == name_part(all[0])
                    && end_digits(all[j]) == end_digits(all[0]),
            i > 0 ==> least == least_number(all.take(i as int)),
            i > 0 ==> greatest == greatest_number(all.take(i as int)),
            i > 0 ==> least <= greatest,
        decreases values.len() - i,
    {
        let v = to_chars(values[i].as_str());
        let ghost t = all[i as int];
        assert(t == v@);
        let digits = count_end_digits(&v);
        if digits == 0 || digits == v.len() {
            assert(!is_numbered(all[i as int]));
            return false;
        }
        let split: usize = v.len() - digits;
        let number = slice_text(&v, split, v.len());
        assert(number@ =~= number_part(t));
        let prefix = slice_text(&v, 0, split);
        assert(prefix@ =~= name_part(t));
        match parse_u64(number.as_str()) {
            None => {
                assert(!is_numbered(all[i as int]));
                return false;
            },
            Some(n) => {
                if digits != width || !same_text(prefix.as_str(), name.as_str()) {
                    assert(!(name_part(all[i as int]) == name_part(all[0]) && end_digits(all[i as int])
                        == end_digits(all[0])));
                    return false;
                }
                assert(all.take(i + 1).drop_last() =~= all.take(i as int));
                assert(all.take(i + 1).last() == t);
                if i == 0 || n < least {
                    least = n;
                }
                if i == 0 || n > greatest {
                    greatest = n;
                }
            },
        }
        i = i + 1;
    }
    assert(all.take(all.len() as int) =~= all);
    greatest as u128 - least as u128 + 1 == values.len() as u128
}

// ---------------------------------------------------------------------------
// Facts
// ---------------------------------------------------------------------------

/// What is said of a field.
pub enum Fact {
    Constant { field: String, value: String },
    Range { field: String, min: String, max: String },
    Coverage { field: String, distinct: usize, min: String, max: String, dense: bool },
    Enumeration { field: String, counts: Vec<(String, usize)>, absent: usize },
}

pub enum FactModel {
    Constant { field: Seq<char>, value: Seq<char> },
    Range { field: Seq<char>, min: Seq<char>, max: Seq<char> },
    Coverage { field: Seq<char>, distinct: nat, min: Seq<char>, max: Seq<char>, dense: bool },
    Enumeration { field: Seq<char>, counts: Seq<(Seq<char>, nat)>, absent: nat },
}

pub open spec fn count_models(v: Seq<(String, usize)>) -> Seq<(Seq<char>, nat)> {
    Seq::new(v.len(), |i: int| (v[i].0@, v[i].1 as nat))
}

impl View for Fact {
    type V = FactModel;

    open spec fn view(&self) -> FactModel {
        match self {
            Fact::Constant { field, value } => FactModel::Constant { field: field@, value: value@ },
            Fact::Range { field, min, max } => FactModel::Range { field: field@, min: min@, max: max@ },
            Fact::Coverage { field, distinct, min, max, dense } => FactModel::Coverage {
                field: field@,
                distinct: *distinct as nat,
                min: min@,
                max: max@,
                dense: *dense,
            },
            Fact::Enumeration { field, counts, absent } => FactModel::Enumeration {
                field: field@,
                counts: count_models(counts@),
                absent: *absent as nat,
            },
        }
    }
}

pub open spec fn first_text(texts: Seq<Seq<char>>) -> Seq<char>
    decreases texts.len(),
{
    if texts.len() <= 1 {
        texts[0]
    } else {
        let before = first_text(texts.drop_last());
        if text_less(texts.last(), before) {
            texts.last()
        } else {
            before
        }
    }
}

pub open spec fn last_text(texts: Seq<Seq<char>>) -> Seq<char>
    decreases texts.len(),
{
    if texts.len() <= 1 {
        texts[0]
    } else {
        let before = last_text(texts.drop_last());
        if text_less(before, texts.last()) {
            texts.last()
        } else {
            before
        }
    }
}

/// Too long, or with a space: not to be shown.
pub open spec fn is_unsafe_value(v: Seq<char>, config: InvariantConfig) -> bool {
    byte_len(v) >= config.max_value_len || has_char(v, ' ')
}

pub open spec fn any_unsafe(texts: Seq<Seq<char>>, config: InvariantConfig) -> bool {
    exists|i: int| 0 <= i < texts.len() && is_unsafe_value(#[trigger] texts[i], config)
}

/// Whether a value is so long that it reads as content.
pub open spec fn any_long(texts: Seq<Seq<char>>, config: InvariantConfig) -> bool {
    exists|i: int| 0 <= i < texts.len() && byte_len(#[trigger] texts[i]) >= config.max_value_len
}

pub open spec fn value_counts(values: Seq<Seq<char>>, present: Seq<Seq<char>>) -> Seq<(Seq<char>, nat)> {
    Seq::new(values.len(), |i: int| (values[i], count_of(present, values[i])))
}

/// The fact about a field: the one value of all units, the range of its numbers, how its many values
/// spread, or how often each of its few values occurs. Nothing of a field named like a credential, nor of
/// one with a long value.
pub open spec fn field_fact(
    name: Seq<char>,
    units: Seq<UnitModel>,
    config: InvariantConfig,
) -> Option<FactModel> {
    let present = present_values(units, name);
    let values = distinct(present);
    let absent = (units.len() - present.len()) as nat;
    let low = first_text(values);
    let high = last_text(values);
    if Pattern::CredentialField.matches_in(name) || present.len() == 0 || any_long(values, config) {
        None
    } else if absent == 0 && values.len() == 1 {
        Some(FactModel::Constant { field: name, value: values[0] })
    } else if all_numbers(present) {
        Some(
            FactModel::Range {
                field: name,
                min: present[least_index(present, present.len())],
                max: present[greatest_index(present, present.len())],
            },
        )
    } else if values.len() == present.len() && present.len() > config.max_enum_values
        && !is_unsafe_value(low, config) && !is_unsafe_value(high, config) {
        Some(
            FactModel::Coverage {
                field: name,
                distinct: values.len(),
                min: low,
                max: high,
                dense: is_dense(values),
            },
        )
    } else if values.len() <= config.max_enum_values && !any_unsafe(values, config) {
        Some(
            FactModel::Enumeration { field: name, counts: value_counts(values, present), absent },
        )
    } else {
        None
    }
}

fn find_ends(values: &Vec<String>) -> (r: (String, String))
    requires
        values@.len() > 0,
    ensures
        r.0@ == first_text(views(values@)),
        r.1@ == last_text(views(values@)),
{
    let ghost all = views(values@);
    let mut low = values[0].clone();
    let mut high = values[0].clone();
    let mut i: usize = 1;
    assert(all.take(1)[0] == values@[0]@);
    while i < values.len()
        invariant
            1 <= i <= values@.len(),
            all == views(values@),
            low@ == first_text(all.take(i as int)),
            high@ == last_text(all.take(i as int)),
        decreases values.len() - i,
    {
        assert(all.take(i + 1).drop_last() =~= all.take(i as int));
        assert(all.take(i + 1).last() == values@[i as int]@);
        if text_before(values[i].as_str(), low.as_str()) {
            low = values[i].clone();
        }
        if text_before(high.as_str(), values[i].as_str()) {
            high = values[i].clone();
        }
        i = i + 1;
    }
    assert(all.take(all.len() as int) =~= all);
    (low, high)
}

fn value_is_unsafe(v: &str, config: &InvariantConfig) -> (b: bool)
    ensures
        b == is_unsafe_value(v@, *config),
{
    bytes_in(v) >= config.max_value_len || text_has_char(v, ' ')
}

fn has_unsafe(values: &Vec<String>, config: &InvariantConfig) -> (b: bool)
    ensures
        b == any_unsafe(views(values@), *config),
{
    let mut i: usize = 0;
    while i < values.len()
        invariant
            i <= values@.len(),
            forall|j: int| 0 <= j < i ==> !is_unsafe_value(#[trigger] views(values@)[j], *config),
        decreases values.len() - i,
    {
        assert(views(values@)[i as int] == values@[i as int]@);
        if value_is_unsafe(values[i].as_str(), config) {
            return true;
        }
        i = i + 1;
    }
    false
}

fn has_long(values: &Vec<String>, config: &InvariantConfig) -> (b: bool)
    ensures
        b == any_long(views(values@), *config),
{
    let mut i: usize = 0;
    while i < values.len()
        invariant
            i <= values@.len(),
            forall|j: int| 0 <= j < i ==> byte_len(#[trigger] views(values@)[j]) < config.max_value_len,
        decreases values.len() - i,
    {
        assert(views(values@)[i as int] == values@[i as int]@);
        if bytes_in(values[i].as_str()) >= config.max_value_len {
            return true;
        }
        i = i + 1;
    }
    false
}

fn count_values(values: &Vec<String>, present: &Vec<String>) -> (out: Vec<(String, usize)>)
    ensures
        count_models(out@) == value_counts(views(values@), views(present@)),
{
    let mut out: Vec<(String, usize)> = Vec::new();
    let mut i: usize = 0;
    while i < values.len()
        invariant
            i <= values@.len(),
            out@.len() == i,
            forall|j: int|
                0 <= j < i ==> (#[trigger] out@[j]).0@ == values@[j]@ && out@[j].1 == count_of(
                    views(present@),
                    values@[j]@,
                ),
        decreases values.len() - i,
    {
        let n = count_text(present, values[i].as_str());
        out.push((values[i].clone(), n));
        i = i + 1;
    }
    assert(count_models(out@) =~= value_counts(views(values@), views(present@)));
    out
}

fn analyze_field(field: &str, units: &[Unit], config: &InvariantConfig) -> (r: Option<Fact>)
    ensures
        r is Some <==> field_fact(field@, unit_models(units@), *config) is Some,
        r matches Some(f) ==> field_fact(field@, unit_models(units@), *config) == Some(f@),
{
    if Pattern::CredentialField.is_match(field) {
        return None;
    }
    let present = collect_present(units, field);
    let ghost ps = views(present@);
    if present.len() == 0 {
        return None;
    }
    let absent: usize = units.len() - present.len();
    let values = distinct_texts(&present);
    proof {
        lemma_distinct_len(ps);
        assert(views(values@).len() == values@.len());
        assert(ps.len() == present@.len());
    }
    if has_long(&values, config) {
        return None;
    }
    if absent == 0 && values.len() == 1 {
        return Some(Fact::Constant { field: copy_str(field), value: values[0].clone() });
    }
    match parse_numbers(&present) {
        Some(nums) => {
            let (lo, hi) = find_extremes(&present, &nums);
            return Some(
                Fact::Range {
                    field: copy_str(field),
                    min: present[lo].clone(),
                    max: present[hi].clone(),
                },
            );
        },
        None => {},
    }
    if values.len() == present.len() && present.len() > config.max_enum_values {
        let (low, high) = find_ends(&values);
        if !value_is_unsafe(low.as_str(), config) && !value_is_unsafe(high.as_str(), config) {
            let dense = check_dense(&values);
            return Some(
                Fact::Coverage {
                    field: copy_str(field),
                    distinct: values.len(),
                    min: low,
                    max: high,
                    dense,
                },
            );
        }
    }
    if values.len() <= config.max_enum_values && !has_unsafe(&values, config) {
        let counts = count_values(&values, &present);
        return Some(Fact::Enumeration { field: copy_str(field), counts, absent });
    }
    None
}

/// The facts of the fields that there is one about.
pub open spec fn field_facts(
    names: Seq<Seq<char>>,
    units: Seq<UnitModel>,
    config: InvariantConfig,
) -> Seq<FactModel>
    decreases names.len(),
{
    if names.len() == 0 {
        seq![]
    } else {
        let before = field_facts(names.drop_last(), units, config);
        match field_fact(names.last(), units, config) {
            Some(f) => before.push(f),
            None => before,
        }
    }
}

pub open spec fn fact_rank(f: FactModel) -> int {
    match f {
        FactModel::Constant { .. } => 0,
        FactModel::Range { .. } => 1,
        FactModel::Coverage { .. } => 2,
        FactModel::Enumeration { .. } => 3,
    }
}

pub open spec fn fact_ranks(facts: Seq<FactModel>) -> Seq<int> {
    Seq::new(facts.len(), |i: int| fact_rank(facts[i]))
}

/// All facts: constants first, then ranges, coverages and enumerations.
pub open spec fn ranked_facts(units: Seq<UnitModel>, config: InvariantConfig) -> Seq<FactModel> {
    let facts = field_facts(distinct(all_names(units)), units, config);
    arranged(facts, stable_order(fact_ranks(facts)))
}

pub open spec fn counted_text(value: Seq<char>, count: nat) -> Seq<char> {
    value + "×"@ + dec(count)
}

pub open spec fn counted_texts(counts: Seq<(Seq<char>, nat)>, absent: nat) -> Seq<Seq<char>> {
    let parts = Seq::new(counts.len(), |i: int| counted_text(counts[i].0, counts[i].1));
    if absent > 0 {
        parts.push(counted_text("absent"@, absent))
    } else {
        parts
    }
}

pub open spec fn fact_text(f: FactModel) -> Seq<char> {
    match f {
        FactModel::Constant { field, value } => field + "="@ + value,
        FactModel::Range { field, min, max } => "range "@ + field + "="@ + min + ".."@ + max,
        FactModel::Coverage { field, distinct, min, max, dense } => if dense {
            field + ": "@ + min + ".."@ + max + " all "@ + dec(distinct) + " present"@
        } else {
            field + ": "@ + dec(distinct) + " distinct, "@ + min + ".."@ + max
        },
        FactModel::Enumeration { field, counts, absent } => field + ": "@ + join(
            counted_texts(counts, absent),
            " "@,
        ),
    }
}

pub open spec fn fact_texts(facts: Seq<FactModel>) -> Seq<Seq<char>> {
    Seq::new(facts.len(), |i: int| fact_text(facts[i]))
}

/// How many of the texts, from the `k`-th on, fit in `max` bytes together with those before.
pub open spec fn fitting(texts: Seq<Seq<char>>, max: int, k: int) -> int
    decreases texts.len() - k,
{
    if 0 <= k < texts.len() && byte_len(join(texts.take(k + 1), " "@)) <= max {
        fitting(texts, max, k + 1)
    } else {
        k
    }
}

/// What is said of the units: as many facts as fit, or nothing.
pub open spec fn description(units: Seq<UnitModel>, config: InvariantConfig) -> Option<Seq<char>> {
    let texts = fact_texts(ranked_facts(units, config));
    let n = fitting(texts, config.max_marker_bytes as int, 0);
    if n > 0 {
        Some(join(texts.take(n), " "@))
    } else {
        None
    }
}

fn counted(value: &str, count: usize) -> (s: String)
    ensures
        s@ == counted_text(value@, count as nat),
{
    let mut s = copy_str(value);
    s.append("×");
    let n = decimal_usize(count);
    s.append(n.as_str());
    s
}

fn render_counts(counts: &Vec<(String, usize)>, absent: usize) -> (s: String)
    ensures
        s@ == join(counted_texts(count_models(counts@), absent as nat), " "@),
{
    let ghost cm = count_models(counts@);
    let mut parts: Vec<String> = Vec::new();
    let mut i: usize = 0;
    while i < counts.len()
        invariant
            i <= counts@.len(),
            parts@.len() == i,
            forall|j: int|
                0 <= j < i ==> (#[trigger] parts@[j])@ == counted_text(
                    counts@[j].0@,
                    counts@[j].1 as nat,
                ),
        decreases counts.len() - i,
    {
        parts.push(counted(counts[i].0.as_str(), counts[i].1));
        i = i + 1;
    }
    if absent > 0 {
        parts.push(counted("absent", absent));
    }
    assert(views(parts@) =~= counted_texts(cm, absent as nat));
    join_texts(&parts, " ")
}

fn render_fact(fact: &Fact) -> (s: String)
    ensures
        s@ == fact_text(fact@),
{
    match fact {
        Fact::Constant { field, value } => {
            let mut s = field.clone();
            s.append("=");
            s.append(value.as_str());
            s
        },
        Fact::Range { field, min, max } => {
            let mut s = copy_str("range ");
            s.append(field.as_str());
            s.append("=");
            s.append(min.as_str());
            s.append("..");
            s.append(max.as_str());
            s
        },
        Fact::Coverage { field, distinct, min, max, dense } => {
            let mut s = field.clone();
            let count = decimal_usize(*distinct);
            s.append(": ");
            if *dense {
                s.append(min.as_str());
                s.append("..");
                s.append(max.as_str());
                s.append(" all ");
                s.append(count.as_str());
                s.append(" present");
            } else {
                s.append(count.as_str());
                s.append(" distinct, ");
                s.append(min.as_str());
                s.append("..");
                s.append(max.as_str());
            }
            s
        },
        Fact::Enumeration { field, counts, absent } => {
            let mut s = field.clone();
            s.append(": ");
            let parts = render_counts(counts, *absent);
            s.append(parts.as_str());
            s
        },
    }
}

pub open spec fn fact_models(facts: Seq<Fact>) -> Seq<FactModel> {
    Seq::new(facts.len(), |i: int| facts[i]@)
}

fn collect_facts(names: &Vec<String>, units: &[Unit], config: &InvariantConfig) -> (out: Vec<Fact>)
    ensures
        fact_models(out@) == field_facts(views(names@), unit_models(units@), *config),
{
    let ghost ns = views(names@);
    let ghost us = unit_models(units@);
    let mut out: Vec<Fact> = Vec::new();
    let mut i: usize = 0;
    assert(ns.take(0) =~= seq![]);
    assert(fact_models(out@) =~= field_facts(ns.take(0), us, *config));
    while i < names.len()
        invariant
            i <= names@.len(),
            ns == views(names@),
            us == unit_models(units@),
            fact_models(out@) == field_facts(ns.take(i as int), us, *config),
        decreases names.len() - i,
    {
        assert(ns.take(i + 1).drop_last() =~= ns.take(i as int));
        assert(ns.take(i + 1).last() == names@[i as int]@);
        match analyze_field(names[i].as_str(), units, config) {
            Some(f) => {
                let ghost before = out@;
                let ghost fm = f@;
                out.push(f);
                assert(fact_models(out@) =~= fact_models(before).push(fm));
            },
            None => {},
        }
        i = i + 1;
    }
    assert(ns.take(ns.len() as int) =~= ns);
    out
}

fn rank_keys(facts: &Vec<Fact>) -> (keys: Vec<u128>)
    ensures
        signed_keys(keys@, false) == fact_ranks(fact_models(facts@)),
        keys@.len() == facts@.len(),
{
    let mut keys: Vec<u128> = Vec::new();
    let mut i: usize = 0;
    while i < facts.len()
        invariant
            i <= facts@.len(),
            keys@.len() == i,
            forall|j: int| 0 <= j < i ==> #[trigger] keys@[j] == fact_rank(facts@[j]@),
        decreases facts.len() - i,
    {
        let rank: u128 = match &facts[i] {
            Fact::Constant { .. } => 0,
            Fact::Range { .. } => 1,
            Fact::Coverage { .. } => 2,
            Fact::Enumeration { .. } => 3,
        };
        keys.push(rank);
        i = i + 1;
    }
    assert(signed_keys(keys@, false) =~= fact_ranks(fact_models(facts@)));
    keys
}

/// What holds of all units, in few words, or nothing where there is nothing safe to say.
pub fn describe(units: &[Unit], config: &InvariantConfig) -> (r: Option<String>)
    ensures
        option_view(r) == description(unit_models(units@), *config),
{
    let ghost us = unit_models(units@);
    let names = field_names(units);
    let facts = collect_facts(&names, units, config);
    let keys = rank_keys(&facts);
    let order = order_by(&keys, false);
    let ghost ranked = ranked_facts(us, *config);
    let mut texts: Vec<String> = Vec::new();
    let mut i: usize = 0;
    while i < order.len()
        invariant
            i <= order@.len(),
            distinct_below(ints(order@), facts@.len() as int),
            ranked == arranged(fact_models(facts@), ints(order@)),
            texts@.len() == i,
            forall|j: int| 0 <= j < i ==> (#[trigger] texts@[j])@ == fact_text(ranked[j]),
        decreases order.len() - i,
    {
        assert(ints(order@)[i as int] == order@[i as int]);
        texts.push(render_fact(&facts[order[i]]));
        i = i + 1;
    }
    let ghost ts = fact_texts(ranked);
    assert(views(texts@) =~= ts);
    let ghost max = config.max_marker_bytes as int;
    let mut out = String::new();
    let mut k: usize = 0;
    assert(ts.take(0) =~= seq![]);
    assert(out@ =~= join(ts.take(0), " "@));
    while k < texts.len()
        invariant
            k <= texts@.len(),
            us == unit_models(units@),
            ts == views(texts@),
            max == config.max_marker_bytes as int,
            out@ == join(ts.take(k as int), " "@),
            fitting(ts, max, 0) == fitting(ts, max, k as int),
            description(us, *config) == (if fitting(ts, max, 0) > 0 {
                Some(join(ts.take(fitting(ts, max, 0)), " "@))
            } else {
                None
            }),
        decreases texts.len() - k,
    {
        let mut longer = out.clone();
        if k > 0 {
            longer.append(" ");
        }
        longer.append(texts[k].as_str());
        assert(ts.take(k + 1).drop_last() =~= ts.take(k as int));
        assert(ts.take(k + 1).last() == texts@[k as int]@);
        assert(k == 0 ==> longer@ =~= texts@[0]@);
        assert(longer@ =~= join(ts.take(k + 1), " "@));
        if bytes_in(longer.as_str()) > config.max_marker_bytes {
            return if k > 0 {
                Some(out)
            } else {
                None
            };
        }
        out = longer;
        k = k + 1;
    }
    if k > 0 {
        Some(out)
    } else {
        None
    }
}

// ---------------------------------------------------------------------------
// Laws
// ---------------------------------------------------------------------------

/// A description never takes more bytes than the limit allows.
pub proof fn description_is_bounded(units: Seq<UnitModel>, config: InvariantConfig)
    ensures
        description(units, config) matches Some(s) ==> byte_len(s) <= config.max_marker_bytes,
{
    let texts = fact_texts(ranked_facts(units, config));
    lemma_fitting(texts, config.max_marker_bytes as int, 0);
}

proof fn lemma_fitting(texts: Seq<Seq<char>>, max: int, k: int)
    requires
        0 <= k <= texts.len(),
    ensures
        k <= fitting(texts, max, k) <= texts.len(),
        fitting(texts, max, k) > k ==> byte_len(join(texts.take(fitting(texts, max, k)), " "@)) <= max,
    decreases texts.len() - k,
{
    if k < texts.len() && byte_len(join(texts.take(k + 1), " "@)) <= max {
        lemma_fitting(texts, max, k + 1);
    }
}

/// Of no units nothing is said.
pub proof fn nothing_of_nothing(config: InvariantConfig)
    ensures
        description(seq![], config) is None,
{
    let names = all_names(seq![]);
    assert(names =~= seq![]);
    assert(distinct(names) =~= seq![]);
    stable_order_sorts(fact_ranks(field_facts(distinct(names), seq![], config)));
}

/// The field that a fact is about.
pub open spec fn fact_field(f: FactModel) -> Seq<char> {
    match f {
        FactModel::Constant { field, .. } => field,
        FactModel::Range { field, .. } => field,
        FactModel::Coverage { field, .. } => field,
        FactModel::Enumeration { field, .. } => field,
    }
}

/// No fact is about a field named like a credential.
pub proof fn credentials_are_withheld(units: Seq<UnitModel>, config: InvariantConfig, k: int)
    requires
        0 <= k < ranked_facts(units, config).len(),
    ensures
        !Pattern::CredentialField.matches_in(fact_field(ranked_facts(units, config)[k])),
{
    let facts = field_facts(distinct(all_names(units)), units, config);
    stable_order_sorts(fact_ranks(facts));
    lemma_field_facts(distinct(all_names(units)), units, config);
}

proof fn lemma_field_facts(names: Seq<Seq<char>>, units: Seq<UnitModel>, config: InvariantConfig)
    ensures
        forall|k: int|
            0 <= k < field_facts(names, units, config).len() ==> {
                let f = #[trigger] field_facts(names, units, config)[k];
                field_fact(fact_field(f), units, config) == Some(f)
            },
    decreases names.len(),
{
    if names.len() > 0 {
        let before = field_facts(names.drop_last(), units, config);
        let out = field_facts(names, units, config);
        lemma_field_facts(names.drop_last(), units, config);
        assert forall|k: int| 0 <= k < out.len() implies {
            let f = #[trigger] out[k];
            field_fact(fact_field(f), units, config) == Some(f)
        } by {
            if k < before.len() {
                assert(out[k] == before[k]);
            }
        }
    }
}

/// The unit without the fields that are named like credentials.
pub open spec fn without_credentials(unit: UnitModel) -> UnitModel
    decreases unit.len(),
{
    if unit.len() == 0 {
        seq![]
    } else {
        let before = without_credentials(unit.drop_last());
        if Pattern::CredentialField.matches_in(unit.last().0) {
            before
        } else {
            before.push(unit.last())
        }
    }
}

pub open spec fn all_without_credentials(units: Seq<UnitModel>) -> Seq<UnitModel> {
    Seq::new(units.len(), |i: int| without_credentials(units[i]))
}

/// Neither the name nor a value of a field that is named like a credential has any part in what is said
/// of the units: without those fields just the same is said.
pub proof fn credentials_do_not_matter(units: Seq<UnitModel>, config: InvariantConfig)
    ensures
        description(all_without_credentials(units), config) == description(units, config),
{
    let names = all_names(units);
    lemma_plain_all_names(units);
    lemma_plain_distinct(names);
    lemma_plain_facts(distinct(names), units, config);
}

/// The names that are not like those of credentials.
spec fn plain_names(names: Seq<Seq<char>>) -> Seq<Seq<char>>
    decreases names.len(),
{
    if names.len() == 0 {
        seq![]
    } else {
        let before = plain_names(names.drop_last());
        if Pattern::CredentialField.matches_in(names.last()) {
            before
        } else {
            before.push(names.last())
        }
    }
}

proof fn lemma_value_of_push(unit: UnitModel, f: (Seq<char>, Seq<char>), name: Seq<char>)
    ensures
        value_of(unit.push(f), name) == (match value_of(unit, name) {
            Some(v) => Some(v),
            None => if f.0 == name {
                Some(f.1)
            } else {
                None
            },
        }),
    decreases unit.len(),
{
    let all = unit.push(f);
    if unit.len() == 0 {
        assert(all.drop_first() =~= seq![]);
        assert(value_of(all.drop_first(), name) is None);
    } else {
        assert(all.drop_first() =~= unit.drop_first().push(f));
        lemma_value_of_push(unit.drop_first(), f, name);
    }
}

proof fn lemma_plain_value(unit: UnitModel, name: Seq<char>)
    requires
        !Pattern::CredentialField.matches_in(name),
    ensures
        value_of(without_credentials(unit), name) == value_of(unit, name),
    decreases unit.len(),
{
    if unit.len() > 0 {
        let rest = unit.drop_last();
        lemma_plain_value(rest, name);
        assert(unit =~= rest.push(unit.last()));
        lemma_value_of_push(rest, unit.last(), name);
        lemma_value_of_push(without_credentials(rest), unit.last(), name);
    }
}

proof fn lemma_plain_present(units: Seq<UnitModel>, name: Seq<char>)
    requires
        !Pattern::CredentialField.matches_in(name),
    ensures
        present_values(all_without_credentials(units), name) == present_values(units, name),
    decreases units.len(),
{
    if units.len() > 0 {
        lemma_plain_present(units.drop_last(), name);
        lemma_plain_value(units.last(), name);
        assert(all_without_credentials(units).drop_last() =~= all_without_credentials(units.drop_last()));
    }
}

proof fn lemma_plain_names_add(a: Seq<Seq<char>>, b: Seq<Seq<char>>)
    ensures
        plain_names(a + b) == plain_names(a) + plain_names(b),
    decreases b.len(),
{
    if b.len() == 0 {
        assert(a + b =~= a);
        assert(plain_names(a) + plain_names(b) =~= plain_names(a));
    } else {
        lemma_plain_names_add(a, b.drop_last());
        assert((a + b).drop_last() =~= a + b.drop_last());
        assert((a + b).last() == b.last());
        assert(plain_names(a + b) =~= plain_names(a) + plain_names(b));
    }
}

proof fn lemma_plain_unit_names(unit: UnitModel)
    ensures
        unit_names(without_credentials(unit)) == plain_names(unit_names(unit)),
    decreases unit.len(),
{
    let names = unit_names(unit);
    if unit.len() == 0 {
        assert(unit_names(without_credentials(unit)) =~= plain_names(names));
    } else {
        lemma_plain_unit_names(unit.drop_last());
        assert(names.drop_last() =~= unit_names(unit.drop_last()));
        assert(names.last() == unit.last().0);
        assert(unit_names(without_credentials(unit)) =~= plain_names(names));
    }
}

proof fn lemma_plain_all_names(units: Seq<UnitModel>)
    ensures
        all_names(all_without_credentials(units)) == plain_names(all_names(units)),
    decreases units.len(),
{
    if units.len() > 0 {
        let plain = all_without_credentials(units);
        lemma_plain_all_names(units.drop_last());
        assert(plain.drop_last() =~= all_without_credentials(units.drop_last()));
        lemma_plain_unit_names(units.last());
        lemma_plain_names_add(all_names(units.drop_last()), unit_names(units.last()));
    }
}

proof fn lemma_plain_holds(names: Seq<Seq<char>>, t: Seq<char>)
    requires
        !Pattern::CredentialField.matches_in(t),
    ensures
        holds(plain_names(names), t) == holds(names, t),
    decreases names.len(),
{
    if names.len() > 0 {
        let rest = names.drop_last();
        lemma_plain_holds(rest, t);
        let plain = plain_names(names);
        let before = plain_names(rest);
        if holds(names, t) {
            let i = choose|i: int| 0 <= i < names.len() && names[i] == t;
            if i == names.len() - 1 {
                assert(plain[plain.len() - 1] == t);
            } else {
                assert(rest[i] == t);
                let k = choose|k: int| 0 <= k < before.len() && before[k] == t;
                assert(plain[k] == t);
            }
        }
        if holds(plain, t) {
            let k = choose|k: int| 0 <= k < plain.len() && plain[k] == t;
            if k < before.len() {
                assert(before[k] == t);
                let i = choose|i: int| 0 <= i < rest.len() && rest[i] == t;
                assert(names[i] == t);
            } else {
                assert(names[names.len() - 1] == t);
            }
        }
    }
}

proof fn lemma_plain_distinct(names: Seq<Seq<char>>)
    ensures
        distinct(plain_names(names)) == plain_names(distinct(names)),
    decreases names.len(),
{
    if names.len() > 0 {
        let rest = names.drop_last();
        let before = distinct(rest);
        let last = names.last();
        lemma_plain_distinct(rest);
        assert(before.push(last).drop_last() =~= before);
        if !Pattern::CredentialField.matches_in(last) {
            lemma_plain_holds(before, last);
            let plain = plain_names(rest);
            assert(plain.push(last).drop_last() =~= plain);
        }
    }
}

proof fn lemma_plain_facts(names: Seq<Seq<char>>, units: Seq<UnitModel>, config: InvariantConfig)
    ensures
        field_facts(plain_names(names), all_without_credentials(units), config) == field_facts(
            names,
            units,
            config,
        ),
    decreases names.len(),
{
    if names.len() > 0 {
        let rest = names.drop_last();
        let last = names.last();
        lemma_plain_facts(rest, units, config);
        if !Pattern::CredentialField.matches_in(last) {
            lemma_plain_present(units, last);
            let plain = plain_names(rest);
            assert(plain.push(last).drop_last() =~= plain);
        }
    }
}

/// What is said to be constant is the value of the field in every unit.
pub proof fn constants_hold(name: Seq<char>, units: Seq<UnitModel>, config: InvariantConfig, i: int)
    requires
        field_fact(name, units, config) is Some,
        field_fact(name, units, config)->0 is Constant,
        0 <= i < units.len(),
    ensures
        value_of(units[i], name) == Some(field_fact(name, units, config)->0->value),
{
    let present = present_values(units, name);
    lemma_present_len(units, name);
    lemma_all_present(units, name, i);
    let j = choose|j: int| 0 <= j < present.len() && value_of(units[i], name) == Some(present[j]);
    lemma_single(present, j);
}

/// Where no unit lacks the field, the value of each unit is among the values.
proof fn lemma_all_present(units: Seq<UnitModel>, name: Seq<char>, i: int)
    requires
        present_values(units, name).len() == units.len(),
        0 <= i < units.len(),
    ensures
        exists|j: int|
            0 <= j < units.len() && value_of(units[i], name) == Some(
                #[trigger] present_values(units, name)[j],
            ),
    decreases units.len(),
{
    let rest = units.drop_last();
    lemma_present_len(rest, name);
    let before = present_values(rest, name);
    if i == units.len() - 1 {
        assert(present_values(units, name)[i] == value_of(units[i], name)->0);
    } else {
        lemma_all_present(rest, name, i);
        let j = choose|j: int|
            0 <= j < rest.len() && value_of(rest[i], name) == Some(#[trigger] before[j]);
        assert(present_values(units, name)[j] == before[j]);
    }
}

proof fn lemma_present_len(units: Seq<UnitModel>, name: Seq<char>)
    ensures
        present_values(units, name).len() <= units.len(),
    decreases units.len(),
{
    if units.len() > 0 {
        lemma_present_len(units.drop_last(), name);
    }
}

/// Where there is only one distinct text, all are that one.
proof fn lemma_single(texts: Seq<Seq<char>>, j: int)
    requires
        distinct(texts).len() == 1,
        0 <= j < texts.len(),
    ensures
        texts[j] == distinct(texts)[0],
{
    lemma_distinct_holds(texts, j);
    let d = distinct(texts);
    let k = choose|k: int| 0 <= k < d.len() && #[trigger] d[k] == texts[j];
    assert(k == 0);
}

proof fn lemma_distinct_holds(texts: Seq<Seq<char>>, j: int)
    requires
        0 <= j < texts.len(),
    ensures
        holds(distinct(texts), texts[j]),
    decreases texts.len(),
{
    let before = distinct(texts.drop_last());
    let out = distinct(texts);
    if j == texts.len() - 1 {
        if !holds(before, texts.last()) {
            assert(out[before.len() as int] == texts[j]);
        }
    } else {
        lemma_distinct_holds(texts.drop_last(), j);
        let k = choose|k: int| 0 <= k < before.len() && #[trigger] before[k] == texts[j];
        assert(out[k] == texts[j]);
    }
}

/// The ends of a range are values of the field, and no value lies outside them.
pub proof fn ranges_hold(name: Seq<char>, units: Seq<UnitModel>, config: InvariantConfig, i: int)
    requires
        field_fact(name, units, config) is Some,
        field_fact(name, units, config)->0 is Range,
        0 <= i < present_values(units, name).len(),
        forall|j: int|
            0 <= j < present_values(units, name).len() ==> double_rank(
                float_bits(#[trigger] present_values(units, name)[j])->0,
            ) is Some,
    ensures
        ({
            let present = present_values(units, name);
            let fact = field_fact(name, units, config)->0;
            &&& holds(present, fact->Range_min)
            &&& holds(present, fact->Range_max)
            &&& !double_less(float_bits(present[i])->0, float_bits(fact->Range_min)->0)
            &&& !double_less(float_bits(fact->Range_max)->0, float_bits(present[i])->0)
        }),
{
    let present = present_values(units, name);
    lemma_extremes(present, present.len(), i);
    let lo = least_index(present, present.len());
    let hi = greatest_index(present, present.len());
    assert(present[lo] == present[lo] && present[hi] == present[hi]);
}

proof fn lemma_extremes(texts: Seq<Seq<char>>, n: nat, i: int)
    requires
        0 <= i < n <= texts.len(),
        forall|j: int| 0 <= j < texts.len() ==> double_rank(float_bits(#[trigger] texts[j])->0) is Some,
    ensures
        0 <= least_index(texts, n) < n,
        0 <= greatest_index(texts, n) < n,
        !double_less(float_bits(texts[i])->0, float_bits(texts[least_index(texts, n)])->0),
        !double_less(float_bits(texts[greatest_index(texts, n)])->0, float_bits(texts[i])->0),
    decreases n,
{
    if n > 1 {
        let k = if i < n - 1 {
            i
        } else {
            0
        };
        lemma_extremes(texts, (n - 1) as nat, k);
        let lo = least_index(texts, (n - 1) as nat);
        let hi = greatest_index(texts, (n - 1) as nat);
        assert(double_rank(float_bits(texts[lo])->0) is Some);
        assert(double_rank(float_bits(texts[hi])->0) is Some);
        assert(double_rank(float_bits(texts[n - 1])->0) is Some);
        assert(double_rank(float_bits(texts[i])->0) is Some);
    }
}

/// The ends of a coverage are values of the field, no value comes before the first or after the
/// last, and no value occurs twice.
pub proof fn coverages_hold(name: Seq<char>, units: Seq<UnitModel>, config: InvariantConfig, i: int)
    requires
        field_fact(name, units, config) is Some,
        field_fact(name, units, config)->0 is Coverage,
        0 <= i < present_values(units, name).len(),
    ensures
        ({
            let present = present_values(units, name);
            let fact = field_fact(name, units, config)->0;
            &&& holds(present, fact->Coverage_min)
            &&& holds(present, fact->Coverage_max)
            &&& !text_less(present[i], fact->Coverage_min)
            &&& !text_less(fact->Coverage_max, present[i])
            &&& fact->distinct == present.len()
            &&& present.no_duplicates()
        }),
{
    let present = present_values(units, name);
    lemma_all_distinct(present);
    lemma_ends(present, i);
}

/// Where a coverage says that all are there, every number from the first to the last is.
pub proof fn dense_coverages_are_complete(
    name: Seq<char>,
    units: Seq<UnitModel>,
    config: InvariantConfig,
    n: int,
)
    requires
        field_fact(name, units, config) is Some,
        field_fact(name, units, config)->0 is Coverage,
        field_fact(name, units, config)->0->dense,
        ({
            let fact = field_fact(name, units, config)->0;
            number_of(fact->Coverage_min) <= n <= number_of(fact->Coverage_max)
        }),
    ensures
        exists|i: int|
            0 <= i < present_values(units, name).len() && number_of(
                #[trigger] present_values(units, name)[i],
            ) == n,
{
    let present = present_values(units, name);
    let fact = field_fact(name, units, config)->0;
    lemma_all_distinct(present);
    lemma_ends(present, 0);
    let a = choose|k: int| 0 <= k < present.len() && #[trigger] present[k] == fact->Coverage_min;
    let b = choose|k: int| 0 <= k < present.len() && #[trigger] present[k] == fact->Coverage_max;
    lemma_number_bounds(present, a);
    lemma_number_bounds(present, b);
    let numbers = Seq::new(present.len(), |i: int| number_of(present[i]));
    let lo = least_number(present);
    let hi = greatest_number(present);
    assert forall|i: int, j: int| 0 <= i < numbers.len() && 0 <= j < numbers.len() && i != j implies numbers[i]
        != numbers[j] by {
        assert(is_numbered(present[i]) && is_numbered(present[j]));
        if numbers[i] == numbers[j] {
            lemma_same_number(present[i], present[j]);
        }
    }
    numbers.unique_seq_to_set();
    let all = vstd::set_lib::set_int_range(lo, hi + 1);
    vstd::set_lib::lemma_int_range(lo, hi + 1);
    assert forall|m: int| numbers.to_set().contains(m) implies all.contains(m) by {
        let i = choose|i: int| 0 <= i < numbers.len() && numbers[i] == m;
        lemma_number_bounds(present, i);
    }
    vstd::set_lib::lemma_subset_equality(numbers.to_set(), all);
    assert(all.contains(n));
    assert(numbers.to_set().contains(n));
    let i = choose|i: int| 0 <= i < numbers.len() && numbers[i] == n;
    assert(number_of(present[i]) == n);
}

/// Where there are as many distinct texts as texts, none occurs twice.
proof fn lemma_all_distinct(texts: Seq<Seq<char>>)
    requires
        distinct(texts).len() == texts.len(),
    ensures
        distinct(texts) == texts,
        texts.no_duplicates(),
    decreases texts.len(),
{
    if texts.len() > 0 {
        let rest = texts.drop_last();
        lemma_distinct_len(rest);
        lemma_all_distinct(rest);
        assert(texts =~= rest.push(texts.last()));
        assert forall|i: int, j: int| 0 <= i < texts.len() && 0 <= j < texts.len() && i != j implies texts[i]
            != texts[j] by {
            if i < rest.len() && j < rest.len() {
                assert(rest[i] != rest[j]);
            } else if i < rest.len() {
                assert(distinct(rest)[i] != texts.last());
            } else {
                assert(distinct(rest)[j] != texts.last());
            }
        }
    } else {
        assert(distinct(texts) =~= texts);
    }
}

proof fn lemma_ends(texts: Seq<Seq<char>>, i: int)
    requires
        0 <= i < texts.len(),
    ensures
        holds(texts, first_text(texts)),
        holds(texts, last_text(texts)),
        !text_less(texts[i], first_text(texts)),
        !text_less(last_text(texts), texts[i]),
    decreases texts.len(),
{
    lemma_text_less_irreflexive(texts[i]);
    if texts.len() == 1 {
        assert(texts[0] == first_text(texts));
    } else {
        let rest = texts.drop_last();
        let last = texts.last();
        assert(last == texts[texts.len() - 1]);
        let k = if i < rest.len() {
            i
        } else {
            0
        };
        lemma_ends(rest, k);
        let a = choose|k: int| 0 <= k < rest.len() && #[trigger] rest[k] == first_text(rest);
        let b = choose|k: int| 0 <= k < rest.len() && #[trigger] rest[k] == last_text(rest);
        assert(texts[a] == rest[a] && texts[b] == rest[b]);
        if i < rest.len() {
            if text_less(last, first_text(rest)) && text_less(texts[i], last) {
                lemma_text_less_transitive(texts[i], last, first_text(rest));
            }
            if text_less(last_text(rest), last) && text_less(last, texts[i]) {
                lemma_text_less_transitive(last_text(rest), last, texts[i]);
            }
        }
    }
}

proof fn lemma_number_bounds(texts: Seq<Seq<char>>, i: int)
    requires
        0 <= i < texts.len(),
    ensures
        least_number(texts) <= number_of(texts[i]) <= greatest_number(texts),
    decreases texts.len(),
{
    if texts.len() > 1 {
        let rest = texts.drop_last();
        let k = if i < rest.len() {
            i
        } else {
            0
        };
        lemma_number_bounds(rest, k);
    }
}

/// Numbered texts with the same name and equally many digits differ where their numbers do.
proof fn lemma_same_number(s: Seq<char>, t: Seq<char>)
    requires
        is_numbered(s),
        is_numbered(t),
        name_part(s) == name_part(t),
        end_digits(s) == end_digits(t),
        number_of(s) == number_of(t),
    ensures
        s == t,
{
    lemma_number_part(s);
    lemma_number_part(t);
    assert(is_digit(number_part(s)[0]) && is_digit(number_part(t)[0]));
    lemma_same_digits(number_part(s), number_part(t));
    assert(s =~= name_part(s) + number_part(s));
    assert(t =~= name_part(t) + number_part(t));
}

proof fn lemma_number_part(s: Seq<char>)
    ensures
        end_digits(s) <= s.len(),
        number_part(s).len() == end_digits(s),
        all_digits(number_part(s)),
    decreases s.len(),
{
    if s.len() > 0 && is_digit(s.last()) {
        lemma_number_part(s.drop_last());
        assert(number_part(s) =~= number_part(s.drop_last()).push(s.last()));
    }
}

proof fn lemma_same_digits(s: Seq<char>, t: Seq<char>)
    requires
        all_digits(s),
        all_digits(t),
        s.len() == t.len(),
        digits_value(s) == digits_value(t),
    ensures
        s == t,
    decreases s.len(),
{
    if s.len() > 0 {
        assert(is_digit(s[s.len() - 1]) && is_digit(t[t.len() - 1]));
        assert forall|i: int| 0 <= i < s.drop_last().len() implies is_digit(#[trigger] s.drop_last()[i]) by {
            assert(is_digit(s[i]));
        }
        assert forall|i: int| 0 <= i < t.drop_last().len() implies is_digit(#[trigger] t.drop_last()[i]) by {
            assert(is_digit(t[i]));
        }
        lemma_same_digits(s.drop_last(), t.drop_last());
        assert(s =~= s.drop_last().push(s.last()));
        assert(t =~= t.drop_last().push(t.last()));
    } else {
        assert(s =~= t);
    }
}

/// An enumeration names every value of the field, each with the number of units that have it, and
/// with the units that lack the field the numbers add up to all units.
pub proof fn enumerations_hold(name: Seq<char>, units: Seq<UnitModel>, config: InvariantConfig)
    requires
        field_fact(name, units, config) is Some,
        field_fact(name, units, config)->0 is Enumeration,
    ensures
        ({
            let present = present_values(units, name);
            let counts = field_fact(name, units, config)->0->counts;
            &&& forall|i: int|
                0 <= i < present.len() ==> exists|k: int|
                    0 <= k < counts.len() && (#[trigger] counts[k]).0 == #[trigger] present[i]
            &&& forall|k: int|
                0 <= k < counts.len() ==> (#[trigger] counts[k]).1 == count_of(present, counts[k].0)
            &&& sum(Seq::new(counts.len(), |k: int| counts[k].1)) + field_fact(
                name,
                units,
                config,
            )->0->absent == units.len()
        }),
{
    let present = present_values(units, name);
    let values = distinct(present);
    let counts = field_fact(name, units, config)->0->counts;
    lemma_present_len(units, name);
    assert forall|i: int| 0 <= i < present.len() implies exists|k: int|
        0 <= k < counts.len() && (#[trigger] counts[k]).0 == #[trigger] present[i] by {
        lemma_distinct_holds(present, i);
        let k = choose|k: int| 0 <= k < values.len() && #[trigger] values[k] == present[i];
        assert(counts[k].0 == present[i]);
    }
    lemma_counts_add_up(present);
    assert(Seq::new(counts.len(), |k: int| counts[k].1) =~= counts_in(values, present));
}

/// How often each of the values occurs.
spec fn counts_in(values: Seq<Seq<char>>, texts: Seq<Seq<char>>) -> Seq<nat> {
    Seq::new(values.len(), |k: int| count_of(texts, values[k]))
}

proof fn lemma_counts_add_up(texts: Seq<Seq<char>>)
    ensures
        sum(counts_in(distinct(texts), texts)) == texts.len(),
    decreases texts.len(),
{
    if texts.len() == 0 {
        assert(counts_in(distinct(texts), texts) =~= seq![]);
    } else {
        let rest = texts.drop_last();
        let last = texts.last();
        let before = distinct(rest);
        lemma_counts_add_up(rest);
        lemma_no_repeats(rest);
        if holds(before, last) {
            let k = choose|k: int| 0 <= k < before.len() && #[trigger] before[k] == last;
            let old_counts = counts_in(before, rest);
            let new_counts = counts_in(before, texts);
            assert forall|i: int| 0 <= i < before.len() && i != k implies before[i] != last by {}
            assert(new_counts =~= old_counts.update(k, old_counts[k] + 1));
            lemma_sum_of_update(old_counts, k, old_counts[k] + 1);
        } else {
            let old_counts = counts_in(before, rest);
            let new_counts = counts_in(before.push(last), texts);
            lemma_absent_count(rest, last);
            assert forall|i: int| 0 <= i < before.len() implies before[i] != last by {}
            assert(new_counts =~= old_counts.push(1));
            assert(new_counts.drop_last() =~= old_counts);
        }
    }
}

proof fn lemma_sum_of_update(s: Seq<nat>, k: int, n: nat)
    requires
        0 <= k < s.len(),
    ensures
        sum(s.update(k, n)) == sum(s) - s[k] + n,
    decreases s.len(),
{
    let t = s.update(k, n);
    if k == s.len() - 1 {
        assert(t.drop_last() =~= s.drop_last());
    } else {
        assert(t.drop_last() =~= s.drop_last().update(k, n));
        lemma_sum_of_update(s.drop_last(), k, n);
    }
}

/// Distinct texts occur once.
proof fn lemma_no_repeats(texts: Seq<Seq<char>>)
    ensures
        distinct(texts).no_duplicates(),
    decreases texts.len(),
{
    if texts.len() > 0 {
        let before = distinct(texts.drop_last());
        let out = distinct(texts);
        lemma_no_repeats(texts.drop_last());
        assert forall|i: int, j: int| 0 <= i < out.len() && 0 <= j < out.len() && i != j implies out[i]
            != out[j] by {
            if i < before.len() && j < before.len() {
                assert(before[i] != before[j]);
            } else if i < before.len() {
                assert(before[i] != texts.last());
            } else if j < before.len() {
                assert(before[j] != texts.last());
            }
        }
    }
}

/// What is not among the distinct texts does not occur.
proof fn lemma_absent_count(texts: Seq<Seq<char>>, t: Seq<char>)
    requires
        !holds(distinct(texts), t),
    ensures
        count_of(texts, t) == 0,
    decreases texts.len(),
{
    if texts.len() > 0 {
        let rest = texts.drop_last();
        lemma_distinct_holds(texts, texts.len() - 1);
        assert(texts.last() == texts[texts.len() - 1]);
        if holds(distinct(rest), t) {
            let k = choose|k: int| 0 <= k < distinct(rest).len() && #[trigger] distinct(rest)[k] == t;
            assert(distinct(texts)[k] == t);
        }
        lemma_absent_count(rest, t);
    }
}

// ---------------------------------------------------------------------------
// Which facts are told
// ---------------------------------------------------------------------------

/// The value of a field is that of the first pair with its name, and there is none where no pair has it.
pub proof fn first_pairs_count(
    before: UnitModel,
    name: Seq<char>,
    value: Seq<char>,
    after: UnitModel,
)
    requires
        forall|i: int| 0 <= i < before.len() ==> (#[trigger] before[i]).0 != name,
    ensures
        value_of(before, name) is None,
        value_of(before.push((name, value)) + after, name) == Some(value),
    decreases before.len(),
{
    let all = before.push((name, value)) + after;
    if before.len() > 0 {
        let rest = before.drop_first();
        assert(before[0].0 != name);
        assert forall|i: int| 0 <= i < rest.len() implies (#[trigger] rest[i]).0 != name by {
            assert(rest[i] == before[i + 1]);
        }
        first_pairs_count(rest, name, value, after);
        assert(all[0] == before[0]);
        assert(all.drop_first() =~= rest.push((name, value)) + after);
    } else {
        assert(all[0] == (name, value));
    }
}

/// The places of the first `n` units that have the field.
spec fn having(units: Seq<UnitModel>, name: Seq<char>, n: nat) -> Seq<int>
    decreases n,
{
    if n == 0 {
        seq![]
    } else {
        let before = having(units, name, (n - 1) as nat);
        if value_of(units[n - 1], name) is Some {
            before.push(n - 1)
        } else {
            before
        }
    }
}

proof fn lemma_having(units: Seq<UnitModel>, name: Seq<char>, n: nat)
    requires
        n <= units.len(),
    ensures
        ascending_below(having(units, name, n), n as int),
        present_values(units.take(n as int), name) == having(units, name, n).map_values(
            |i: int| value_of(units[i], name)->0,
        ),
        forall|i: int| #[trigger]
            having(units, name, n).contains(i) <==> 0 <= i < n && value_of(units[i], name) is Some,
    decreases n,
{
    let value = |i: int| value_of(units[i], name)->0;
    let out = having(units, name, n);
    let part = units.take(n as int);
    if n > 0 {
        let before = having(units, name, (n - 1) as nat);
        lemma_having(units, name, (n - 1) as nat);
        assert(part.drop_last() =~= units.take(n - 1));
        assert(part.last() == units[n - 1]);
        assert forall|i: int| #[trigger] out.contains(i) <==> 0 <= i < n && value_of(
            units[i],
            name,
        ) is Some by {
            assert(before.contains(i) <==> 0 <= i < n - 1 && value_of(units[i], name) is Some);
            if before.contains(i) {
                let k = choose|k: int| 0 <= k < before.len() && before[k] == i;
                assert(out[k] == i);
            }
            if out.contains(i) {
                let k = choose|k: int| 0 <= k < out.len() && out[k] == i;
                if k < before.len() {
                    assert(before[k] == i);
                }
            }
            if value_of(units[n - 1], name) is Some {
                assert(out[out.len() - 1] == n - 1);
            }
        }
    }
    assert(present_values(part, name) =~= out.map_values(value));
}

/// How many units have the field.
pub open spec fn how_many_have(units: Seq<UnitModel>, name: Seq<char>) -> nat {
    units.filter(|u: UnitModel| value_of(u, name) is Some).len()
}

proof fn lemma_how_many_have(units: Seq<UnitModel>, name: Seq<char>)
    ensures
        how_many_have(units, name) == present_values(units, name).len(),
    decreases units.len(),
{
    reveal(Seq::filter);
    if units.len() > 0 {
        lemma_how_many_have(units.drop_last(), name);
    }
}

/// What the values among the units and those among the present ones have to do with each other.
proof fn lemma_present(units: Seq<UnitModel>, name: Seq<char>)
    ensures
        forall|j: int|
            0 <= j < present_values(units, name).len() ==> exists|i: int|
                0 <= i < units.len() && value_of(#[trigger] units[i], name) == Some(
                    #[trigger] present_values(units, name)[j],
                ),
        forall|i: int|
            0 <= i < units.len() && value_of(#[trigger] units[i], name) is Some ==> holds(
                present_values(units, name),
                value_of(units[i], name)->0,
            ),
{
    let present = present_values(units, name);
    let places = having(units, name, units.len());
    lemma_having(units, name, units.len());
    assert(units.take(units.len() as int) =~= units);
    assert forall|j: int| 0 <= j < present.len() implies exists|i: int|
        0 <= i < units.len() && value_of(#[trigger] units[i], name) == Some(#[trigger] present[j]) by {
        assert(places.contains(places[j]));
        assert(value_of(units[places[j]], name) == Some(present[j]));
    }
    assert forall|i: int|
        0 <= i < units.len() && value_of(#[trigger] units[i], name) is Some implies holds(
        present,
        value_of(units[i], name)->0,
    ) by {
        assert(places.contains(i));
        let k = choose|k: int| 0 <= k < places.len() && places[k] == i;
        assert(present[k] == value_of(units[i], name)->0);
    }
}

proof fn lemma_distinct_from(texts: Seq<Seq<char>>, k: int)
    requires
        0 <= k < distinct(texts).len(),
    ensures
        holds(texts, distinct(texts)[k]),
    decreases texts.len(),
{
    let rest = texts.drop_last();
    let before = distinct(rest);
    if k < before.len() {
        lemma_distinct_from(rest, k);
        let j = choose|j: int| 0 <= j < rest.len() && #[trigger] rest[j] == before[k];
        assert(texts[j] == before[k]);
        assert(distinct(texts)[k] == before[k]);
    } else {
        assert(texts[texts.len() - 1] == distinct(texts)[k]);
    }
}

/// Texts that are all in a list have no more different ones than the list has.
proof fn lemma_distinct_among(texts: Seq<Seq<char>>, list: Seq<Seq<char>>)
    requires
        forall|i: int| 0 <= i < texts.len() ==> holds(list, #[trigger] texts[i]),
    ensures
        distinct(texts).len() <= list.len(),
{
    let d = distinct(texts);
    lemma_no_repeats(texts);
    assert forall|k: int| 0 <= k < d.len() implies list.contains(#[trigger] d[k]) by {
        lemma_distinct_from(texts, k);
        let j = choose|j: int| 0 <= j < texts.len() && #[trigger] texts[j] == d[k];
        assert(holds(list, texts[j]));
        let m = choose|m: int| 0 <= m < list.len() && #[trigger] list[m] == texts[j];
        assert(list[m] == d[k]);
    }
    d.unique_seq_to_set();
    assert(d.to_set().subset_of(list.to_set())) by {
        assert forall|x: Seq<char>| d.to_set().contains(x) implies list.to_set().contains(x) by {
            let k = choose|k: int| 0 <= k < d.len() && d[k] == x;
            assert(list.contains(d[k]));
        }
    }
    list.lemma_cardinality_of_set();
    vstd::set_lib::lemma_len_subset(d.to_set(), list.to_set());
}

/// The name of the field is none of a credential, some unit has the field, and all its values are short.
pub open spec fn may_be_told(units: Seq<UnitModel>, name: Seq<char>, config: InvariantConfig) -> bool {
    &&& !regex_is_match(
        r"(?i)token|secret|password|passwd|api[_-]?key|auth|credential|session[_-]?id"@,
        name,
    )
    &&& exists|i: int| 0 <= i < units.len() && value_of(#[trigger] units[i], name) is Some
    &&& forall|i: int|
        0 <= i < units.len() ==> (value_of(#[trigger] units[i], name) matches Some(v) ==> byte_len(v)
            < config.max_value_len)
}

/// All units have the field, with the same value.
pub open spec fn same_everywhere(units: Seq<UnitModel>, name: Seq<char>) -> bool {
    forall|i: int, j: int|
        0 <= i < units.len() && 0 <= j < units.len() ==> value_of(#[trigger] units[i], name) == value_of(
            #[trigger] units[j],
            name,
        ) && value_of(units[i], name) is Some
}

/// Every value of the field is a number.
pub open spec fn numbers_only(units: Seq<UnitModel>, name: Seq<char>) -> bool {
    forall|i: int|
        0 <= i < units.len() ==> (value_of(#[trigger] units[i], name) matches Some(v) ==> float_bits(
            v,
        ) is Some)
}

/// No value of the field has a space.
pub open spec fn no_spaces(units: Seq<UnitModel>, name: Seq<char>) -> bool {
    forall|i: int|
        0 <= i < units.len() ==> (value_of(#[trigger] units[i], name) matches Some(v) ==> !v.contains(
            ' ',
        ))
}

/// No two units have the same value in the field.
pub open spec fn different_everywhere(units: Seq<UnitModel>, name: Seq<char>) -> bool {
    forall|i: int, j: int|
        0 <= i < j < units.len() && value_of(#[trigger] units[i], name) is Some ==> value_of(
            units[i],
            name,
        ) != value_of(#[trigger] units[j], name)
}

/// Nothing is told of a field whose name is that of a credential, of one that no unit has, or of one with
/// a long value.
pub proof fn some_fields_are_not_told(units: Seq<UnitModel>, name: Seq<char>, config: InvariantConfig)
    ensures
        !may_be_told(units, name, config) ==> field_fact(name, units, config) is None,
{
    if !may_be_told(units, name, config) {
        lemma_told(units, name, config);
    }
}

proof fn lemma_told(units: Seq<UnitModel>, name: Seq<char>, config: InvariantConfig)
    ensures
        may_be_told(units, name, config) <==> !(Pattern::CredentialField.matches_in(name)
            || present_values(units, name).len() == 0 || any_long(
            distinct(present_values(units, name)),
            config,
        )),
{
    let present = present_values(units, name);
    let d = distinct(present);
    lemma_present(units, name);
    if may_be_told(units, name, config) {
        let i = choose|i: int| 0 <= i < units.len() && value_of(#[trigger] units[i], name) is Some;
        assert(holds(present, value_of(units[i], name)->0));
        if any_long(d, config) {
            let k = choose|k: int| 0 <= k < d.len() && byte_len(#[trigger] d[k]) >= config.max_value_len;
            lemma_distinct_from(present, k);
            let j = choose|j: int| 0 <= j < present.len() && #[trigger] present[j] == d[k];
            let u = choose|u: int|
                0 <= u < units.len() && value_of(#[trigger] units[u], name) == Some(present[j]);
            assert(value_of(units[u], name) == Some(d[k]));
        }
    } else if !Pattern::CredentialField.matches_in(name) && present.len() > 0 {
        assert(present[0] == present[0]);
        let u = choose|u: int|
            0 <= u < units.len() && value_of(#[trigger] units[u], name) == Some(present[0]);
        assert(value_of(units[u], name) is Some);
        let i = choose|i: int|
            0 <= i < units.len() && !(value_of(#[trigger] units[i], name) matches Some(v) ==> byte_len(
                v,
            ) < config.max_value_len);
        let v = value_of(units[i], name)->0;
        assert(holds(present, v));
        let j = choose|j: int| 0 <= j < present.len() && #[trigger] present[j] == v;
        lemma_distinct_holds(present, j);
        let k = choose|k: int| 0 <= k < d.len() && #[trigger] d[k] == v;
        assert(byte_len(d[k]) >= config.max_value_len);
    }
}

proof fn lemma_same_everywhere(units: Seq<UnitModel>, name: Seq<char>)
    requires
        units.len() > 0,
    ensures
        same_everywhere(units, name) <==> present_values(units, name).len() == units.len() && distinct(
            present_values(units, name),
        ).len() == 1,
        same_everywhere(units, name) ==> distinct(present_values(units, name))[0] == value_of(
            units[0],
            name,
        )->0,
{
    let present = present_values(units, name);
    let d = distinct(present);
    lemma_present(units, name);
    lemma_present_len(units, name);
    lemma_distinct_len(present);
    if same_everywhere(units, name) {
        let v = value_of(units[0], name)->0;
        assert(holds(present, v));
        let places = having(units, name, units.len());
        lemma_having(units, name, units.len());
        assert(units.take(units.len() as int) =~= units);
        lemma_full(units, name, units.len());
        assert forall|i: int| 0 <= i < present.len() implies holds(seq![v], #[trigger] present[i]) by {
            let u = choose|u: int|
                0 <= u < units.len() && value_of(#[trigger] units[u], name) == Some(present[i]);
            assert(value_of(units[u], name) == value_of(units[0], name));
            assert(seq![v][0] == present[i]);
        }
        lemma_distinct_among(present, seq![v]);
        lemma_distinct_from(present, 0);
        let j = choose|j: int| 0 <= j < present.len() && #[trigger] present[j] == d[0];
        assert(holds(seq![v], present[j]));
        assert(d[0] == v);
    }
    if present.len() == units.len() && d.len() == 1 {
        assert forall|i: int, j: int| 0 <= i < units.len() && 0 <= j < units.len() implies value_of(
            #[trigger] units[i],
            name,
        ) == value_of(#[trigger] units[j], name) && value_of(units[i], name) is Some by {
            lemma_all_present(units, name, i);
            lemma_all_present(units, name, j);
            let a = choose|a: int|
                0 <= a < units.len() && value_of(units[i], name) == Some(#[trigger] present[a]);
            let b = choose|b: int|
                0 <= b < units.len() && value_of(units[j], name) == Some(#[trigger] present[b]);
            lemma_single(present, a);
            lemma_single(present, b);
        }
    }
}

proof fn lemma_full(units: Seq<UnitModel>, name: Seq<char>, n: nat)
    requires
        n <= units.len(),
        forall|i: int| 0 <= i < units.len() ==> value_of(#[trigger] units[i], name) is Some,
    ensures
        having(units, name, n).len() == n,
    decreases n,
{
    if n > 0 {
        lemma_full(units, name, (n - 1) as nat);
    }
}

/// A field that has the same value in all units is told as a constant.
pub proof fn constants_are_told(units: Seq<UnitModel>, name: Seq<char>, config: InvariantConfig)
    requires
        may_be_told(units, name, config),
    ensures
        same_everywhere(units, name) ==> field_fact(name, units, config) == Some(
            FactModel::Constant { field: name, value: value_of(units[0], name)->0 },
        ),
        !same_everywhere(units, name) ==> !(field_fact(name, units, config) matches Some(f)
            && f is Constant),
{
    lemma_told(units, name, config);
    lemma_same_everywhere(units, name);
    lemma_present_len(units, name);
}

/// A field of numbers that is not the same everywhere is told as a range, and no other field is.
pub proof fn ranges_are_told(units: Seq<UnitModel>, name: Seq<char>, config: InvariantConfig)
    requires
        may_be_told(units, name, config),
        !same_everywhere(units, name),
    ensures
        numbers_only(units, name) <==> (field_fact(name, units, config) matches Some(f) && f is Range),
{
    let present = present_values(units, name);
    lemma_told(units, name, config);
    lemma_same_everywhere(units, name);
    lemma_present_len(units, name);
    lemma_present(units, name);
    if numbers_only(units, name) {
        assert forall|j: int| 0 <= j < present.len() implies float_bits(#[trigger] present[j]) is Some by {
            let u = choose|u: int|
                0 <= u < units.len() && value_of(#[trigger] units[u], name) == Some(present[j]);
            assert(float_bits(value_of(units[u], name)->0) is Some);
        }
    }
    if all_numbers(present) {
        assert forall|i: int| 0 <= i < units.len() implies (value_of(#[trigger] units[i], name) matches Some(
            v,
        ) ==> float_bits(v) is Some) by {
            if value_of(units[i], name) is Some {
                let v = value_of(units[i], name)->0;
                assert(holds(present, v));
                let j = choose|j: int| 0 <= j < present.len() && #[trigger] present[j] == v;
                assert(float_bits(present[j]) is Some);
            }
        }
    }
}

proof fn lemma_safe(units: Seq<UnitModel>, name: Seq<char>, config: InvariantConfig, v: Seq<char>)
    requires
        may_be_told(units, name, config),
        no_spaces(units, name),
        holds(present_values(units, name), v),
    ensures
        !is_unsafe_value(v, config),
{
    let present = present_values(units, name);
    lemma_present(units, name);
    let j = choose|j: int| 0 <= j < present.len() && #[trigger] present[j] == v;
    let u = choose|u: int|
        0 <= u < units.len() && value_of(#[trigger] units[u], name) == Some(present[j]);
    assert(value_of(units[u], name) == Some(v));
}

/// A field with more values than may be named, no two of them the same, is told by its first and last
/// value.
pub proof fn coverages_are_told(units: Seq<UnitModel>, name: Seq<char>, config: InvariantConfig)
    requires
        may_be_told(units, name, config),
        !same_everywhere(units, name),
        !numbers_only(units, name),
        different_everywhere(units, name),
        how_many_have(units, name) > config.max_enum_values,
        no_spaces(units, name),
    ensures
        field_fact(name, units, config) matches Some(f) && f is Coverage && f->distinct
            == how_many_have(units, name),
{
    let present = present_values(units, name);
    let places = having(units, name, units.len());
    lemma_told(units, name, config);
    lemma_same_everywhere(units, name);
    lemma_present_len(units, name);
    lemma_how_many_have(units, name);
    ranges_are_told(units, name, config);
    lemma_having(units, name, units.len());
    assert(units.take(units.len() as int) =~= units);
    assert forall|i: int, j: int| 0 <= i < j < present.len() implies #[trigger] present[i]
        != #[trigger] present[j] by {
        assert(places[i] < places[j]);
        assert(places.contains(places[i]) && places.contains(places[j]));
        assert(value_of(units[places[i]], name) == Some(present[i]));
        assert(value_of(units[places[j]], name) == Some(present[j]));
    }
    lemma_all_kept(present);
    lemma_ends(present, 0);
    lemma_safe(units, name, config, first_text(present));
    lemma_safe(units, name, config, last_text(present));
}

proof fn lemma_all_kept(texts: Seq<Seq<char>>)
    requires
        forall|i: int, j: int| 0 <= i < j < texts.len() ==> #[trigger] texts[i] != #[trigger] texts[j],
    ensures
        distinct(texts) == texts,
    decreases texts.len(),
{
    if texts.len() > 0 {
        let rest = texts.drop_last();
        assert forall|i: int, j: int| 0 <= i < j < rest.len() implies #[trigger] rest[i]
            != #[trigger] rest[j] by {
            assert(rest[i] == texts[i] && rest[j] == texts[j]);
        }
        lemma_all_kept(rest);
        if holds(rest, texts.last()) {
            let k = choose|k: int| 0 <= k < rest.len() && #[trigger] rest[k] == texts.last();
            assert(texts[k] == texts[texts.len() - 1]);
        }
        assert(rest.push(texts.last()) =~= texts);
    } else {
        assert(distinct(texts) =~= texts);
    }
}

/// A field with few values is told by how often it has each of them.
pub proof fn enumerations_are_told(
    units: Seq<UnitModel>,
    name: Seq<char>,
    config: InvariantConfig,
    list: Seq<Seq<char>>,
)
    requires
        may_be_told(units, name, config),
        !same_everywhere(units, name),
        !numbers_only(units, name),
        no_spaces(units, name),
        list.len() <= config.max_enum_values,
        forall|i: int|
            0 <= i < units.len() ==> (value_of(#[trigger] units[i], name) matches Some(v) ==> holds(
                list,
                v,
            )),
    ensures
        field_fact(name, units, config) matches Some(f) && f is Enumeration && f->absent == units.len()
            - how_many_have(units, name),
{
    let present = present_values(units, name);
    let d = distinct(present);
    lemma_told(units, name, config);
    lemma_same_everywhere(units, name);
    lemma_present_len(units, name);
    lemma_how_many_have(units, name);
    lemma_present(units, name);
    ranges_are_told(units, name, config);
    assert forall|j: int| 0 <= j < present.len() implies holds(list, #[trigger] present[j]) by {
        let u = choose|u: int|
            0 <= u < units.len() && value_of(#[trigger] units[u], name) == Some(present[j]);
        assert(holds(list, value_of(units[u], name)->0));
    }
    lemma_distinct_among(present, list);
    assert forall|k: int| 0 <= k < d.len() implies !is_unsafe_value(#[trigger] d[k], config) by {
        lemma_distinct_from(present, k);
        lemma_safe(units, name, config, d[k]);
    }
}

proof fn lemma_names_held(units: Seq<UnitModel>, i: int, j: int)
    requires
        0 <= i < units.len(),
        0 <= j < units[i].len(),
    ensures
        holds(all_names(units), units[i][j].0),
    decreases units.len(),
{
    let rest = units.drop_last();
    let before = all_names(rest);
    let last = unit_names(units.last());
    let out = all_names(units);
    if i < rest.len() {
        lemma_names_held(rest, i, j);
        let k = choose|k: int| 0 <= k < before.len() && #[trigger] before[k] == rest[i][j].0;
        assert(out[k] == before[k]);
    } else {
        assert(out[before.len() + j] == last[j]);
    }
}

proof fn lemma_fact_found(
    names: Seq<Seq<char>>,
    units: Seq<UnitModel>,
    config: InvariantConfig,
    name: Seq<char>,
)
    requires
        holds(names, name),
        field_fact(name, units, config) is Some,
    ensures
        field_facts(names, units, config).contains(field_fact(name, units, config)->0),
    decreases names.len(),
{
    let out = field_facts(names, units, config);
    let rest = names.drop_last();
    let before = field_facts(rest, units, config);
    let f = field_fact(name, units, config)->0;
    let k = choose|k: int| 0 <= k < names.len() && #[trigger] names[k] == name;
    if k < rest.len() {
        assert(rest[k] == name);
        lemma_fact_found(rest, units, config, name);
        let i = choose|i: int| 0 <= i < before.len() && before[i] == f;
        assert(out[i] == f);
    } else {
        assert(out[out.len() - 1] == f);
    }
}

/// The fact about every field that there is one about is among the facts, and each fact among them is one
/// about its field. Constants come first, then ranges, then coverages, then enumerations.
pub proof fn all_facts_are_ranked(
    units: Seq<UnitModel>,
    config: InvariantConfig,
    i: int,
    j: int,
    a: int,
    b: int,
)
    ensures
        0 <= i < units.len() && 0 <= j < units[i].len() && field_fact(units[i][j].0, units, config) is Some
            ==> ranked_facts(units, config).contains(field_fact(units[i][j].0, units, config)->0),
        0 <= a < ranked_facts(units, config).len() ==> field_fact(
            fact_field(ranked_facts(units, config)[a]),
            units,
            config,
        ) == Some(ranked_facts(units, config)[a]),
        0 <= a < b < ranked_facts(units, config).len() ==> ({
            let f = ranked_facts(units, config)[a];
            let g = ranked_facts(units, config)[b];
            &&& g is Constant ==> f is Constant
            &&& g is Range ==> f is Constant || f is Range
            &&& g is Coverage ==> !(f is Enumeration)
        }),
{
    let names = distinct(all_names(units));
    let facts = field_facts(names, units, config);
    let order = stable_order(fact_ranks(facts));
    let ranked = ranked_facts(units, config);
    stable_order_sorts(fact_ranks(facts));
    lemma_field_facts(names, units, config);
    if 0 <= i < units.len() && 0 <= j < units[i].len() && field_fact(
        units[i][j].0,
        units,
        config,
    ) is Some {
        let name = units[i][j].0;
        lemma_names_held(units, i, j);
        let all = all_names(units);
        let m = choose|m: int| 0 <= m < all.len() && #[trigger] all[m] == name;
        lemma_distinct_holds(all, m);
        lemma_fact_found(names, units, config, name);
        let f = field_fact(name, units, config)->0;
        let k = choose|k: int| 0 <= k < facts.len() && facts[k] == f;
        assert(order.contains(k));
        let p = choose|p: int| 0 <= p < order.len() && order[p] == k;
        assert(ranked[p] == f);
    }
    if 0 <= a < ranked.len() {
        assert(ranked[a] == facts[order[a]]);
    }
    if 0 <= a < b < ranked.len() {
        assert(ranked[a] == facts[order[a]]);
        assert(ranked[b] == facts[order[b]]);
        assert(fact_ranks(facts)[order[a]] == fact_rank(ranked[a]));
        assert(fact_ranks(facts)[order[b]] == fact_rank(ranked[b]));
    }
}

/// As many facts are told as fit: the first ones, with spaces between them, and all of them where the
/// next one would not go over the limit.
pub proof fn as_much_is_told_as_fits(units: Seq<UnitModel>, config: InvariantConfig) -> (n: int)
    ensures
        ({
            let texts = fact_texts(ranked_facts(units, config));
            let max = config.max_marker_bytes;
            &&& 0 <= n <= texts.len()
            &&& n == 0 ==> description(units, config) is None
            &&& n > 0 ==> description(units, config) == Some(join(texts.take(n), " "@)) && byte_len(
                join(texts.take(n), " "@),
            ) <= max
            &&& n < texts.len() ==> byte_len(join(texts.take(n + 1), " "@)) > max
        }),
{
    let texts = fact_texts(ranked_facts(units, config));
    let max = config.max_marker_bytes as int;
    lemma_fitting(texts, max, 0);
    lemma_fitting_stops(texts, max, 0);
    fitting(texts, max, 0)
}

proof fn lemma_fitting_stops(texts: Seq<Seq<char>>, max: int, k: int)
    requires
        0 <= k <= texts.len(),
    ensures
        fitting(texts, max, k) < texts.len() ==> byte_len(
            join(texts.take(fitting(texts, max, k) + 1), " "@),
        ) > max,
    decreases texts.len() - k,
{
    if k < texts.len() && byte_len(join(texts.take(k + 1), " "@)) <= max {
        lemma_fitting_stops(texts, max, k + 1);
    }
}

/// How doubles compare by their bits: those without a sign by their size, those with a sign the other way
/// round, and those with a sign before those without, but for the two zeros. What is no number compares
/// with nothing.
pub proof fn doubles_are_ordered(a: u64, b: u64)
    requires
        a <= 0x7ff0_0000_0000_0000,
        b <= 0x7ff0_0000_0000_0000,
    ensures
        double_less(a, b) <==> a < b,
        double_less((a + 0x8000_0000_0000_0000) as u64, (b + 0x8000_0000_0000_0000) as u64) <==> b < a,
        double_less((a + 0x8000_0000_0000_0000) as u64, b) <==> a > 0 || b > 0,
        !double_less(b, (a + 0x8000_0000_0000_0000) as u64),
{
}

/// What is no number is neither less nor greater than anything.
pub proof fn no_numbers_compare_with_nothing(a: u64, b: u64)
    requires
        0x7ff0_0000_0000_0000 < a < 0x8000_0000_0000_0000 || a > 0xfff0_0000_0000_0000,
    ensures
        !double_less(a, b),
        !double_less(b, a),
{
}

/// The text is a name and behind it a number of so many digits.
pub open spec fn is_name_and_number(s: Seq<char>, name: Seq<char>, width: int, n: int) -> bool {
    &&& name.len() > 0
    &&& !('0' <= name.last() <= '9')
    &&& width > 0
    &&& s.len() == name.len() + width
    &&& s.take(name.len() as int) == name
    &&& forall|i: int| name.len() <= i < s.len() ==> '0' <= #[trigger] s[i] <= '9'
    &&& digits_value(s.skip(name.len() as int)) == n <= u64::MAX
}

proof fn lemma_name_and_number(s: Seq<char>, name: Seq<char>, width: int, n: int)
    requires
        is_name_and_number(s, name, width, n),
    ensures
        end_digits(s) == width,
        name_part(s) == name,
        is_numbered(s),
        number_of(s) == n,
{
    lemma_end_digits_are(s, width as nat, name.len() as int);
    let d = number_part(s);
    assert(d =~= s.skip(name.len() as int));
    assert(name_part(s) =~= name);
    assert forall|i: int| 0 <= i < d.len() implies is_digit(#[trigger] d[i]) by {
        assert(d[i] == s[name.len() + i]);
    }
    assert(is_digit(d[0]));
}

proof fn lemma_end_digits_are(s: Seq<char>, width: nat, at: int)
    requires
        0 < at,
        s.len() == at + width,
        !is_digit(s[at - 1]),
        forall|i: int| at <= i < s.len() ==> '0' <= #[trigger] s[i] <= '9',
    ensures
        end_digits(s) == width,
    decreases width,
{
    if width > 0 {
        let rest = s.drop_last();
        assert('0' <= s[s.len() - 1] <= '9');
        assert forall|i: int| at <= i < rest.len() implies '0' <= #[trigger] rest[i] <= '9' by {
            assert(rest[i] == s[i]);
        }
        assert(rest[at - 1] == s[at - 1]);
        lemma_end_digits_are(rest, (width - 1) as nat, at);
    }
}

/// Values that are one name with numbers of one width behind it, as many as there are numbers from the
/// least to the greatest, are told to be all there.
pub proof fn all_present_is_told(
    texts: Seq<Seq<char>>,
    numbers: Seq<int>,
    name: Seq<char>,
    width: int,
    lo: int,
    hi: int,
)
    requires
        texts.len() > 0,
        numbers.len() == texts.len(),
        forall|i: int|
            0 <= i < texts.len() ==> is_name_and_number(#[trigger] texts[i], name, width, numbers[i]),
        numbers.contains(lo),
        numbers.contains(hi),
        forall|i: int| 0 <= i < numbers.len() ==> lo <= #[trigger] numbers[i] <= hi,
    ensures
        is_dense(texts) <==> hi - lo + 1 == texts.len(),
{
    assert forall|i: int| 0 <= i < texts.len() implies is_numbered(#[trigger] texts[i]) && name_part(
        texts[i],
    ) == name_part(texts[0]) && end_digits(texts[i]) == end_digits(texts[0]) && number_of(texts[i])
        == numbers[i] by {
        lemma_name_and_number(texts[i], name, width, numbers[i]);
        lemma_name_and_number(texts[0], name, width, numbers[0]);
    }
    let a = choose|i: int| 0 <= i < numbers.len() && numbers[i] == lo;
    let b = choose|i: int| 0 <= i < numbers.len() && numbers[i] == hi;
    assert(number_of(texts[a]) == lo && number_of(texts[b]) == hi);
    lemma_number_bounds(texts, a);
    lemma_number_bounds(texts, b);
    lemma_extreme_numbers(texts);
    let x = choose|i: int| 0 <= i < texts.len() && number_of(#[trigger] texts[i]) == least_number(texts);
    let y = choose|i: int|
        0 <= i < texts.len() && number_of(#[trigger] texts[i]) == greatest_number(texts);
    assert(number_of(texts[x]) == numbers[x] && number_of(texts[y]) == numbers[y]);
}

proof fn lemma_extreme_numbers(texts: Seq<Seq<char>>)
    requires
        texts.len() > 0,
    ensures
        exists|i: int| 0 <= i < texts.len() && number_of(#[trigger] texts[i]) == least_number(texts),
        exists|i: int| 0 <= i < texts.len() && number_of(#[trigger] texts[i]) == greatest_number(texts),
    decreases texts.len(),
{
    if texts.len() == 1 {
        assert(number_of(texts[0]) == least_number(texts));
    } else {
        let rest = texts.drop_last();
        lemma_extreme_numbers(rest);
        let a = choose|i: int| 0 <= i < rest.len() && number_of(#[trigger] rest[i]) == least_number(rest);
        let b = choose|i: int|
            0 <= i < rest.len() && number_of(#[trigger] rest[i]) == greatest_number(rest);
        assert(texts[a] == rest[a] && texts[b] == rest[b]);
        assert(texts[texts.len() - 1] == texts.last());
    }
}

proof fn lemma_count_of_units(units: Seq<UnitModel>, name: Seq<char>, v: Seq<char>)
    ensures
        count_of(present_values(units, name), v) == units.filter(
            |u: UnitModel| value_of(u, name) == Some(v),
        ).len(),
    decreases units.len(),
{
    reveal(Seq::filter);
    if units.len() > 0 {
        lemma_count_of_units(units.drop_last(), name, v);
        let before = present_values(units.drop_last(), name);
        if value_of(units.last(), name) is Some {
            assert(before.push(value_of(units.last(), name)->0).drop_last() =~= before);
        }
    }
}

/// An enumeration counts the units that have each value.
pub proof fn enumerations_count_units(
    name: Seq<char>,
    units: Seq<UnitModel>,
    config: InvariantConfig,
    k: int,
)
    requires
        field_fact(name, units, config) is Some,
        field_fact(name, units, config)->0 is Enumeration,
        0 <= k < (field_fact(name, units, config)->0->counts).len(),
    ensures
        ({
            let (value, count) = (field_fact(name, units, config)->0->counts)[k];
            &&& count == units.filter(|u: UnitModel| value_of(u, name) == Some(value)).len()
            &&& count > 0
        }),
{
    let present = present_values(units, name);
    let (value, count) = (field_fact(name, units, config)->0->counts)[k];
    lemma_count_of_units(units, name, value);
    lemma_distinct_from(present, k);
    let j = choose|j: int| 0 <= j < present.len() && #[trigger] present[j] == value;
    lemma_counted(present, j);
}

proof fn lemma_counted(texts: Seq<Seq<char>>, j: int)
    requires
        0 <= j < texts.len(),
    ensures
        count_of(texts, texts[j]) > 0,
    decreases texts.len(),
{
    if j < texts.len() - 1 {
        lemma_counted(texts.drop_last(), j);
        assert(texts.drop_last()[j] == texts[j]);
    }
}

/// How facts are written.
pub proof fn facts_are_written(
    field: Seq<char>,
    low: Seq<char>,
    high: Seq<char>,
    n: nat,
    counts: Seq<(Seq<char>, nat)>,
)
    ensures
        fact_text(FactModel::Constant { field, value: low }) == field + "="@ + low,
        fact_text(FactModel::Range { field, min: low, max: high }) == "range "@ + field + "="@ + low
            + ".."@ + high,
        fact_text(FactModel::Coverage { field, distinct: n, min: low, max: high, dense: true }) == field
            + ": "@ + low + ".."@ + high + " all "@ + dec(n) + " present"@,
        fact_text(FactModel::Coverage { field, distinct: n, min: low, max: high, dense: false }) == field
            + ": "@ + dec(n) + " distinct, "@ + low + ".."@ + high,
        ({
            let parts = Seq::new(counts.len(), |i: int| counts[i].0 + "×"@ + dec(counts[i].1));
            &&& fact_text(FactModel::Enumeration { field, counts, absent: 0 }) == field + ": "@ + join(
                parts,
                " "@,
            )
            &&& n > 0 ==> fact_text(FactModel::Enumeration { field, counts, absent: n }) == field + ": "@
                + join(parts.push("absent"@ + "×"@ + dec(n)), " "@)
        }),
{
    let parts = Seq::new(counts.len(), |i: int| counts[i].0 + "×"@ + dec(counts[i].1));
    assert(counted_texts(counts, 0) =~= parts);
    if n > 0 {
        assert(counted_texts(counts, n) =~= parts.push("absent"@ + "×"@ + dec(n)));
    }
}

} // verus!
