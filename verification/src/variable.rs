//! The tokens of a script: constant text, the `BEGIN`/`END` tags, and
//! variables that draw test data from integer ranges, float ranges and a set
//! of characters.
use vstd::prelude::*;
use vstd::relations::*;
use vstd::seq_lib::*;
use crate::text::{chars_of, char_position, extend, first_index, has_char, lit, push_char, remove_first, slice, string_of};
use crate::number::{decimal, decimal_i64, decimal_u64, signed_decimal};

verus! {

broadcast use group_to_multiset_ensures;

/// An attribute of the script language.
#[derive(PartialEq, Debug)]
pub enum Attribute {
    IntRange((i64, i64)),
    /// A float range, by the text of its two borders.
    FloatRange((String, String)),
    StrSet(String),
    Tag(String),
    Except(Box<Attribute>),
    Type(String),
    Uncertain(String),
    Any(()),
}

/// What an attribute holds.
pub enum AttrView {
    IntRange(i64, i64),
    FloatRange(Seq<char>, Seq<char>),
    StrSet(Seq<char>),
    Tag(Seq<char>),
    Except(Box<AttrView>),
    Type(Seq<char>),
    Uncertain(Seq<char>),
    Any,
}

pub open spec fn attr_view(a: Attribute) -> AttrView
    decreases a,
{
    match a {
        Attribute::IntRange(r) => AttrView::IntRange(r.0, r.1),
        Attribute::FloatRange(r) => AttrView::FloatRange(r.0@, r.1@),
        Attribute::StrSet(s) => AttrView::StrSet(s@),
        Attribute::Tag(s) => AttrView::Tag(s@),
        Attribute::Except(b) => AttrView::Except(Box::new(attr_view(*b))),
        Attribute::Type(s) => AttrView::Type(s@),
        Attribute::Uncertain(s) => AttrView::Uncertain(s@),
        Attribute::Any(_) => AttrView::Any,
    }
}

impl View for Attribute {
    type V = AttrView;

    open spec fn view(&self) -> AttrView {
        attr_view(*self)
    }
}

/// The name of an attribute's kind; `Except[..]` around the name of what it
/// excepts.
pub open spec fn kind_name(a: AttrView) -> Seq<char>
    decreases a,
{
    match a {
        AttrView::IntRange(..) => "IntRange"@,
        AttrView::FloatRange(..) => "FloatRange"@,
        AttrView::StrSet(..) => "StrSet"@,
        AttrView::Tag(..) => "Tag"@,
        AttrView::Type(..) => "Type"@,
        AttrView::Uncertain(..) => "Uncertain"@,
        AttrView::Any => "Any"@,
        AttrView::Except(b) => "Except["@ + kind_name(*b) + "]"@,
    }
}

impl Attribute {
    /// The name of the attribute's kind.
    pub fn get_type(&self) -> (r: String)
        ensures
            r@ == kind_name(self@),
        decreases self,
    {
        match self {
            Attribute::IntRange(_) => String::from_str("IntRange"),
            Attribute::FloatRange(_) => String::from_str("FloatRange"),
            Attribute::StrSet(_) => String::from_str("StrSet"),
            Attribute::Tag(_) => String::from_str("Tag"),
            Attribute::Type(_) => String::from_str("Type"),
            Attribute::Uncertain(_) => String::from_str("Uncertain"),
            Attribute::Any(_) => String::from_str("Any"),
            Attribute::Except(in_a) => {
                let inner = in_a.get_type();
                let mut r = String::from_str("Except[");
                r.append(inner.as_str());
                r.append("]");
                r
            },
        }
    }
}

/// A float range of a variable, by the text of its borders; `remove` when
/// the range is taken out of the variable rather than added to it.
#[derive(Debug)]
pub struct FloatMaterial {
    pub low: String,
    pub high: String,
    pub remove: bool,
}

pub struct FloatMaterialView {
    pub low: Seq<char>,
    pub high: Seq<char>,
    pub remove: bool,
}

impl View for FloatMaterial {
    type V = FloatMaterialView;

    open spec fn view(&self) -> FloatMaterialView {
        FloatMaterialView { low: self.low@, high: self.high@, remove: self.remove }
    }
}

/// A token of a script.
#[derive(Debug)]
pub struct Variable {
    int_ranges: Vec<(i64, i64)>,
    float_materials: Vec<FloatMaterial>,
    float_digits: Option<u8>,
    str_set: String,
    quantity: u64,
    end_char: String,
    constant: bool,
    const_str: String,
    tag: u8,
}

/// What a token holds.
pub struct VariableView {
    pub int_ranges: Seq<(i64, i64)>,
    pub float_materials: Seq<FloatMaterialView>,
    pub float_digits: Option<u8>,
    pub str_set: Seq<char>,
    pub quantity: u64,
    pub end_char: Seq<char>,
    pub constant: bool,
    pub const_str: Seq<char>,
    pub tag: u8,
}

impl View for Variable {
    type V = VariableView;

    closed spec fn view(&self) -> VariableView {
        VariableView {
            int_ranges: self.int_ranges@,
            float_materials: self.float_materials@.map_values(|m: FloatMaterial| m@),
            float_digits: self.float_digits,
            str_set: self.str_set@,
            quantity: self.quantity,
            end_char: self.end_char@,
            constant: self.constant,
            const_str: self.const_str@,
            tag: self.tag,
        }
    }
}

/// A fresh token: a constant with empty text and nothing in it.
pub open spec fn fresh_variable() -> VariableView {
    VariableView {
        int_ranges: seq![],
        float_materials: seq![],
        float_digits: None,
        str_set: seq![],
        quantity: 0,
        end_char: seq![],
        constant: true,
        const_str: seq![],
        tag: 0,
    }
}

/// The constant token that stands for `s`.
pub open spec fn const_variable(s: Seq<char>) -> VariableView {
    VariableView { const_str: s, ..fresh_variable() }
}

/// A constant token that holds `const_str`.
pub fn make_const_variable(const_str: &str) -> (res: Variable)
    ensures
        res@ == const_variable(const_str@),
{
    let mut res: Variable = Variable::new();
    res.set_to_constant(String::from_str(const_str));
    res
}

// ---------------------------------------------------------------------------
// Integer ranges.
/// An endpoint of a range: its value, and whether it closes the range.
pub type Endpoint = (i64, bool);

/// The order of endpoints: by value, and an opening endpoint before a closing
/// one of the same value.
pub open spec fn endpoint_leq(a: Endpoint, b: Endpoint) -> bool {
    a.0 < b.0 || (a.0 == b.0 && (!a.1 || b.1))
}

pub open spec fn endpoint_order() -> spec_fn(Endpoint, Endpoint) -> bool {
    |a: Endpoint, b: Endpoint| endpoint_leq(a, b)
}

/// The endpoints of the ranges, in the order of the ranges.
pub open spec fn endpoints(ranges: Seq<(i64, i64)>) -> Seq<Endpoint>
    decreases ranges.len(),
{
    if ranges.len() == 0 {
        seq![]
    } else {
        endpoints(ranges.drop_last()) + seq![(ranges.last().0, false), (ranges.last().1, true)]
    }
}

/// One endpoint of a sweep: the state is the start of the range being built
/// (kept while a range is open), the number of ranges open, and the ranges
/// built; a range starts when none was open, and is built each time no range
/// is left open.
pub open spec fn sweep_step(st: (i64, int, Seq<(i64, i64)>), e: Endpoint) -> (
    i64,
    int,
    Seq<(i64, i64)>,
) {
    let (start, count, out) = st;
    let start1 = if count == 0 {
        e.0
    } else {
        start
    };
    let count1 = if e.1 {
        count - 1
    } else {
        count + 1
    };
    if count1 == 0 {
        (0i64, 0int, out.push((start1, e.0)))
    } else {
        (start1, count1, out)
    }
}

/// The state of a sweep over endpoints, from no range open.
pub open spec fn sweep(events: Seq<Endpoint>) -> (i64, int, Seq<(i64, i64)>)
    decreases events.len(),
{
    if events.len() == 0 {
        (0i64, 0int, seq![])
    } else {
        sweep_step(sweep(events.drop_last()), events.last())
    }
}

/// The ranges after `range` joins `ranges`: a sweep over all their endpoints
/// in order, which closes a range each time no range is open.
pub open spec fn joined(ranges: Seq<(i64, i64)>, range: (i64, i64)) -> Seq<(i64, i64)> {
    sweep(endpoints(ranges.push(range)).sort_by(endpoint_order())).2
}

/// What is left of `i` once `r` is taken out of it.
pub open spec fn cut(i: (i64, i64), r: (i64, i64)) -> Seq<(i64, i64)> {
    if i.1 < r.0 || i.0 > r.1 {
        seq![i]
    } else if r.0 <= i.0 && i.1 <= r.1 {
        seq![]
    } else if i.0 < r.0 && r.1 < i.1 {
        seq![(i.0, (r.0 - 1) as i64), ((r.1 + 1) as i64, i.1)]
    } else if i.0 < r.0 {
        seq![(i.0, (r.0 - 1) as i64)]
    } else {
        seq![((r.1 + 1) as i64, i.1)]
    }
}

/// The ranges after `r` is taken out of each of `ranges`.
pub open spec fn deleted(ranges: Seq<(i64, i64)>, r: (i64, i64)) -> Seq<(i64, i64)>
    decreases ranges.len(),
{
    if ranges.len() == 0 {
        seq![]
    } else {
        deleted(ranges.drop_last(), r) + cut(ranges.last(), r)
    }
}

pub proof fn lemma_endpoint_order_total()
    ensures
        total_ordering(endpoint_order()),
{
}

/// Inserts `x` into the sorted `v`, after every endpoint that is not above it.
fn insert_sorted(v: &mut Vec<Endpoint>, x: Endpoint)
    requires
        sorted_by(old(v)@, endpoint_order()),
    ensures
        sorted_by(final(v)@, endpoint_order()),
        final(v)@.to_multiset() == old(v)@.to_multiset().insert(x),
{
    let n = v.len();
    let mut p: usize = 0;
    while p < n && (v[p].0 < x.0 || (v[p].0 == x.0 && (!v[p].1 || x.1)))
        invariant
            p <= n == v.len(),
            forall|j: int| 0 <= j < p ==> endpoint_leq(#[trigger] v@[j], x),
        decreases n - p,
    {
        p += 1;
    }
    let ghost before = v@;
    v.insert(p, x);
    assert(v@ == before.insert(p as int, x));
    assert forall|i: int, j: int| 0 <= i < j < v@.len() implies #[trigger] endpoint_order()(
        v@[i],
        v@[j],
    ) by {
        if j < p {
            assert(endpoint_order()(before[i], before[j]));
        } else if i < p && j == p {
            assert(endpoint_leq(before[i], x));
        } else if i < p && j > p {
            assert(endpoint_order()(before[i], before[j - 1]));
        } else if i == p && j > p {
            assert(!endpoint_leq(before[p as int], x));
            if p < j - 1 {
                assert(endpoint_order()(before[p as int], before[j - 1]));
            }
        } else {
            assert(endpoint_order()(before[i - 1], before[j - 1]));
        }
    }
}

/// Sorts endpoints in their order.
fn sort_endpoints(v: &Vec<Endpoint>) -> (res: Vec<Endpoint>)
    ensures
        res@ == v@.sort_by(endpoint_order()),
{
    let mut res: Vec<Endpoint> = Vec::new();
    let n = v.len();
    for i in 0..n
        invariant
            n == v.len(),
            sorted_by(res@, endpoint_order()),
            res@.to_multiset() == v@.take(i as int).to_multiset(),
    {
        insert_sorted(&mut res, v[i]);
        assert(v@.take(i + 1) == v@.take(i as int).push(v@[i as int]));
    }
    proof {
        assert(v@.take(n as int) =~= v@);
        lemma_endpoint_order_total();
        v@.lemma_sort_by_ensures(endpoint_order());
        lemma_sorted_unique(res@, v@.sort_by(endpoint_order()), endpoint_order());
    }
    res
}

proof fn lemma_sweep_count_bound(events: Seq<Endpoint>)
    ensures
        -events.len() <= sweep(events).1 <= events.len(),
    decreases events.len(),
{
    if events.len() > 0 {
        lemma_sweep_count_bound(events.drop_last());
    }
}

// ---------------------------------------------------------------------------
// Characters.
pub open spec fn no_duplicates(s: Seq<char>) -> bool {
    forall|i: int, j: int| 0 <= i < j < s.len() ==> s[i] != s[j]
}

impl Variable {
    /// A fresh token: a constant with empty text and nothing in it.
    pub fn new() -> (res: Self)
        ensures
            res@ == fresh_variable(),
    {
        let r = Variable {
            int_ranges: Vec::new(),
            float_materials: Vec::new(),
            float_digits: None,
            str_set: String::new(),
            quantity: 0,
            end_char: String::new(),
            constant: true,
            const_str: String::new(),
            tag: 0,
        };
        assert(r@.float_materials =~= Seq::<FloatMaterialView>::empty());
        assert(r@.int_ranges =~= Seq::<(i64, i64)>::empty());
        r
    }

    pub fn is_constant(&self) -> (r: bool)
        ensures
            r == self@.constant,
    {
        self.constant
    }

    pub fn is_tag(&self) -> (r: bool)
        ensures
            r == (self@.tag >= 1),
    {
        self.tag >= 1
    }

    pub fn tag(&self) -> (r: u8)
        ensures
            r == self@.tag,
    {
        self.tag
    }

    pub fn ints(&self) -> (r: &Vec<(i64, i64)>)
        ensures
            r@ == self@.int_ranges,
    {
        &self.int_ranges
    }

    /// The float ranges added to or taken out of the token, in order, by the
    /// text of their borders.
    pub fn float_materials(&self) -> (r: &Vec<FloatMaterial>)
        ensures
            r@.map_values(|m: FloatMaterial| m@) == self@.float_materials,
    {
        &self.float_materials
    }

    /// The number of decimals of the float data, when one was given.
    pub fn float_digits(&self) -> (r: Option<u8>)
        ensures
            r == self@.float_digits,
    {
        self.float_digits
    }

    pub fn stri(&self) -> (r: &String)
        ensures
            r@ == self@.str_set,
    {
        &self.str_set
    }

    pub fn quantity(&self) -> (r: u64)
        ensures
            r == self@.quantity,
    {
        self.quantity
    }

    pub fn end_char(&self) -> (r: &String)
        ensures
            r@ == self@.end_char,
    {
        &self.end_char
    }

    pub fn const_str(&self) -> (r: &String)
        ensures
            r@ == self@.const_str,
    {
        &self.const_str
    }

    pub fn get_int_ranges(&self) -> (r: &Vec<(i64, i64)>)
        ensures
            r@ == self@.int_ranges,
    {
        &self.int_ranges
    }

    pub fn get_str_set(&self) -> (r: &String)
        ensures
            r@ == self@.str_set,
    {
        &self.str_set
    }

    pub fn get_quanity(&self) -> (r: u64)
        ensures
            r == self@.quantity,
    {
        self.quantity
    }

    pub fn get_end_char(&self) -> (r: &String)
        ensures
            r@ == self@.end_char,
    {
        &self.end_char
    }

    pub fn get_constant(&self) -> (r: bool)
        ensures
            r == self@.constant,
    {
        self.constant
    }

    pub fn get_const_str(&self) -> (r: &String)
        ensures
            r@ == self@.const_str,
    {
        &self.const_str
    }

    pub fn set_quantity(&mut self, quantity: u64)
        ensures
            final(self)@ == (VariableView { quantity, ..old(self)@ }),
    {
        self.quantity = quantity;
    }

    pub fn set_end_char(&mut self, end_char: String)
        ensures
            final(self)@ == (VariableView { end_char: end_char@, ..old(self)@ }),
    {
        self.end_char = end_char;
    }

    pub fn set_to_constant(&mut self, const_str: String)
        ensures
            final(self)@ == (VariableView { constant: true, const_str: const_str@, ..old(self)@ }),
    {
        self.constant = true;
        self.const_str = const_str;
    }

    pub fn set_to_variable(&mut self)
        ensures
            final(self)@ == (VariableView { constant: false, ..old(self)@ }),
    {
        self.constant = false;
    }

    pub fn set_to_tag(&mut self, tag: u8)
        ensures
            final(self)@ == (VariableView { constant: true, tag, ..old(self)@ }),
    {
        self.constant = true;
        self.tag = tag;
    }

    /// Sets the number of decimals of the float data.
    pub fn set_float_precision(&mut self, precision: u8)
        ensures
            final(self)@ == (VariableView { float_digits: Some(precision), ..old(self)@ }),
    {
        self.float_digits = Some(precision);
    }

    /// Adds (or, when `remove`, takes out) a float range, by the text of its
    /// borders.
    pub fn push_float_material(&mut self, low: String, high: String, remove: bool)
        ensures
            final(self)@ == (VariableView {
                float_materials: old(self)@.float_materials.push(
                    FloatMaterialView { low: low@, high: high@, remove },
                ),
                ..old(self)@
            }),
    {
        let m = FloatMaterial { low, high, remove };
        let ghost mv = m@;
        self.float_materials.push(m);
        assert(self.float_materials@.map_values(|m: FloatMaterial| m@) =~= old(
            self,
        ).float_materials@.map_values(|m: FloatMaterial| m@).push(mv));
    }

    /// The text of the variable, one field a line.
    pub fn to_text(&self) -> (r: String)
        ensures
            r@ == variable_text(self@),
    {
        let mut v = lit("[\n\tint_ranges: (");
        let n = self.int_ranges.len();
        let ghost rs = self.int_ranges@;
        assert(rs.take(0) =~= Seq::<(i64, i64)>::empty());
        let ghost start = v@;
        for k in 0..n
            invariant
                n == rs.len(),
                rs == self.int_ranges@,
                v@ == start + ranges_text(rs.take(k as int)),
        {
            let (a, b) = self.int_ranges[k];
            assert(rs.take(k + 1).drop_last() =~= rs.take(k as int));
            assert(rs.take(k + 1).last() == (a, b));
            if k > 0 {
                extend(&mut v, &lit(", "));
            } else {
                assert(rs.take(k + 1).len() == 1);
            }
            extend(&mut v, &lit("("));
            extend(&mut v, &decimal_i64(a));
            extend(&mut v, &lit(", "));
            extend(&mut v, &decimal_i64(b));
            extend(&mut v, &lit(")"));
            assert(v@ =~= start + ranges_text(rs.take(k + 1)));
        }
        assert(rs.take(n as int) =~= rs);
        extend(&mut v, &lit(")\n\tfloat_ranges: ("));
        let m = self.float_materials.len();
        let ghost ms = self.float_materials@.map_values(|x: FloatMaterial| x@);
        assert(ms.take(0) =~= Seq::<FloatMaterialView>::empty());
        let ghost start2 = v@;
        for k in 0..m
            invariant
                m == ms.len(),
                ms == self.float_materials@.map_values(|x: FloatMaterial| x@),
                v@ == start2 + floats_text(ms.take(k as int)),
        {
            let f = &self.float_materials[k];
            assert(ms.take(k + 1).drop_last() =~= ms.take(k as int));
            assert(ms.take(k + 1).last() == f@);
            if k > 0 {
                extend(&mut v, &lit(", "));
            } else {
                assert(ms.take(k + 1).len() == 1);
            }
            if f.remove {
                extend(&mut v, &lit("\\("));
            } else {
                extend(&mut v, &lit("("));
            }
            extend(&mut v, &chars_of(f.low.as_str()));
            extend(&mut v, &lit(", "));
            extend(&mut v, &chars_of(f.high.as_str()));
            extend(&mut v, &lit(")"));
            assert(v@ =~= start2 + floats_text(ms.take(k + 1)));
        }
        assert(ms.take(m as int) =~= ms);
        extend(&mut v, &lit(")\n\tstr_set: ("));
        extend(&mut v, &chars_of(self.str_set.as_str()));
        extend(&mut v, &lit(")\n\tquantity: ("));
        extend(&mut v, &decimal_u64(self.quantity));
        extend(&mut v, &lit(")\n\tend_char: ("));
        extend(&mut v, &chars_of(self.end_char.as_str()));
        extend(&mut v, &lit(")\n\tconstant: ("));
        if self.constant {
            extend(&mut v, &lit("true"));
        } else {
            extend(&mut v, &lit("false"));
        }
        extend(&mut v, &lit(")\n\tconst_str: ("));
        extend(&mut v, &chars_of(self.const_str.as_str()));
        extend(&mut v, &lit(")\n\ttag: ("));
        extend(&mut v, &decimal_u64(self.tag as u64));
        extend(&mut v, &lit(")\n\tfloat_digits: ("));
        match self.float_digits {
            Some(d) => extend(&mut v, &decimal_u64(d as u64)),
            None => {},
        }
        extend(&mut v, &lit(")\n]"));
        assert(v@ =~= variable_text(self@));
        string_of(&v)
    }

    /// Adds `element` to the set of characters; `true` when it was not there.
    pub fn join_str_set(&mut self, element: char) -> (r: bool)
        ensures
            r == !has_char(old(self)@.str_set, element),
            final(self)@ == (VariableView {
                str_set: if r {
                    old(self)@.str_set.push(element)
                } else {
                    old(self)@.str_set
                },
                ..old(self)@
            }),
    {
        let chars = chars_of(self.str_set.as_str());
        let ret = match char_position(&chars, element) {
            Some(_) => false,
            None => true,
        };
        if ret {
            let mut s = self.str_set.clone();
            push_char(&mut s, element);
            self.str_set = s;
        }
        ret
    }

    /// Takes the first `element` out of the set of characters; `true` when it
    /// was there.
    pub fn del_str_set(&mut self, element: char) -> (r: bool)
        ensures
            r == has_char(old(self)@.str_set, element),
            final(self)@ == (VariableView {
                str_set: if r {
                    remove_first(old(self)@.str_set, element)
                } else {
                    old(self)@.str_set
                },
                ..old(self)@
            }),
    {
        let chars = chars_of(self.str_set.as_str());
        let idx = match char_position(&chars, element) {
            Some(idx) => idx,
            None => {
                return false;
            },
        };
        let mut rest = slice(&chars, 0, idx);
        let tail = slice(&chars, idx + 1, chars.len());
        extend(&mut rest, &tail);
        self.str_set = string_of(&rest);
        true
    }

    /// Joins `range` to the integer ranges.
    pub fn join_int_range(&mut self, range: (i64, i64))
        ensures
            final(self)@ == (VariableView {
                int_ranges: joined(old(self)@.int_ranges, range),
                ..old(self)@
            }),
    {
        let mut lnr: Vec<Endpoint> = Vec::new();
        let n = self.int_ranges.len();
        let ghost ranges = self.int_ranges@.push(range);
        assert(ranges.take(0) =~= Seq::<(i64, i64)>::empty());
        for k in 0..n
            invariant
                n == self.int_ranges.len(),
                ranges == self.int_ranges@.push(range),
                lnr@ == endpoints(ranges.take(k as int)),
        {
            let i = self.int_ranges[k];
            lnr.push((i.0, false));
            lnr.push((i.1, true));
            assert(ranges.take(k + 1).drop_last() =~= ranges.take(k as int));
        }
        lnr.push((range.0, false));
        lnr.push((range.1, true));
        assert(ranges.take(n + 1).drop_last() =~= ranges.take(n as int));
        assert(ranges.take(n + 1) =~= ranges);
        assert(ranges.last() == range);
        assert(lnr@ =~= endpoints(ranges));
        let sorted = sort_endpoints(&lnr);
        let mut out: Vec<(i64, i64)> = Vec::new();
        let mut start: i64 = 0;
        let mut count: i128 = 0;
        let m = sorted.len();
        assert(sorted@.take(0) =~= Seq::<Endpoint>::empty());
        for j in 0..m
            invariant
                m == sorted.len(),
                sweep(sorted@.take(j as int)) == (start, count as int, out@),
        {
            proof {
                lemma_sweep_count_bound(sorted@.take(j as int));
                assert(sorted@.take(j + 1).drop_last() =~= sorted@.take(j as int));
            }
            let i = sorted[j];
            if count == 0 {
                start = i.0;
            }
            if i.1 {
                count -= 1;
            } else {
                count += 1;
            }
            if count == 0 {
                out.push((start, i.0));
                start = 0;
            }
        }
        assert(sorted@.take(m as int) =~= sorted@);
        assert(out@ == joined(self.int_ranges@, range));
        self.int_ranges = out;
    }

    /// Takes `range` out of the integer ranges.
    pub fn del_int_range(&mut self, range: (i64, i64))
        ensures
            final(self)@ == (VariableView {
                int_ranges: deleted(old(self)@.int_ranges, range),
                ..old(self)@
            }),
    {
        let mut buf: Vec<(i64, i64)> = Vec::new();
        let n = self.int_ranges.len();
        assert(self.int_ranges@.take(0) =~= Seq::<(i64, i64)>::empty());
        for k in 0..n
            invariant
                n == self.int_ranges.len(),
                buf@ == deleted(self.int_ranges@.take(k as int), range),
        {
            let i = self.int_ranges[k];
            assert(self.int_ranges@.take(k + 1).drop_last() =~= self.int_ranges@.take(k as int));
            if i.1 < range.0 || i.0 > range.1 {
                buf.push(i);
            } else if range.0 <= i.0 && i.1 <= range.1 {
            } else if i.0 < range.0 && range.1 < i.1 {
                buf.push((i.0, range.0 - 1));
                buf.push((range.1 + 1, i.1));
            } else {
                if i.0 < range.0 {
                    buf.push((i.0, range.0 - 1));
                } else {
                    buf.push((range.1 + 1, i.1));
                }
            }
            assert(buf@ =~= deleted(self.int_ranges@.take(k as int), range) + cut(i, range));
        }
        assert(self.int_ranges@.take(n as int) =~= self.int_ranges@);
        self.int_ranges = buf;
    }
}

// ---------------------------------------------------------------------------
// The text of a variable.
/// `(a, b), (c, d)`: the ranges in brackets, separated by `, `.
pub open spec fn ranges_text(rs: Seq<(i64, i64)>) -> Seq<char>
    decreases rs.len(),
{
    if rs.len() == 0 {
        seq![]
    } else {
        let p = "("@ + signed_decimal(rs.last().0 as int) + ", "@ + signed_decimal(
            rs.last().1 as int,
        ) + ")"@;
        if rs.len() == 1 {
            p
        } else {
            ranges_text(rs.drop_last()) + ", "@ + p
        }
    }
}

/// `(low, high), ..`: the float materials by their text, a taken-out one with
/// `\` in front.
pub open spec fn floats_text(ms: Seq<FloatMaterialView>) -> Seq<char>
    decreases ms.len(),
{
    if ms.len() == 0 {
        seq![]
    } else {
        let m = ms.last();
        let p = (if m.remove {
            "\\("@
        } else {
            "("@
        }) + m.low + ", "@ + m.high + ")"@;
        if ms.len() == 1 {
            p
        } else {
            floats_text(ms.drop_last()) + ", "@ + p
        }
    }
}

pub open spec fn bool_text(b: bool) -> Seq<char> {
    if b {
        "true"@
    } else {
        "false"@
    }
}

/// The text of a variable, one field a line.
pub open spec fn variable_text(v: VariableView) -> Seq<char> {
    "[\n\tint_ranges: ("@ + ranges_text(v.int_ranges) + ")\n\tfloat_ranges: ("@ + floats_text(
        v.float_materials,
    ) + ")\n\tstr_set: ("@ + v.str_set + ")\n\tquantity: ("@ + decimal(v.quantity as nat)
        + ")\n\tend_char: ("@ + v.end_char + ")\n\tconstant: ("@ + bool_text(v.constant)
        + ")\n\tconst_str: ("@ + v.const_str + ")\n\ttag: ("@ + decimal(v.tag as nat)
        + ")\n\tfloat_digits: ("@ + (match v.float_digits {
        Some(d) => decimal(d as nat),
        None => seq![],
    }) + ")\n]"@
}

// ---------------------------------------------------------------------------
// What the ranges and the set of characters stand for.
/// Whether `x` lies in one of the ranges.
pub open spec fn covered(ranges: Seq<(i64, i64)>, x: int) -> bool {
    exists|i: int| 0 <= i < ranges.len() && (#[trigger] ranges[i]).0 <= x <= ranges[i].1
}

/// Ranges that are not empty, in order, and apart from each other.
pub open spec fn canonical(ranges: Seq<(i64, i64)>) -> bool {
    &&& forall|i: int| 0 <= i < ranges.len() ==> (#[trigger] ranges[i]).0 <= ranges[i].1
    &&& forall|i: int, j: int| 0 <= i < j < ranges.len() ==> (#[trigger] ranges[i]).1 < (
    #[trigger] ranges[j]).0
}

pub(crate) proof fn lemma_covered_concat(a: Seq<(i64, i64)>, b: Seq<(i64, i64)>, x: int)
    ensures
        covered(a + b, x) == (covered(a, x) || covered(b, x)),
{
    if covered(a + b, x) {
        let i = choose|i: int| 0 <= i < (a + b).len() && (#[trigger] (a + b)[i]).0 <= x <= (a + b)[i].1;
        if i < a.len() {
            assert(a[i] == (a + b)[i]);
        } else {
            assert(b[i - a.len()] == (a + b)[i]);
        }
    }
    if covered(a, x) {
        let i = choose|i: int| 0 <= i < a.len() && (#[trigger] a[i]).0 <= x <= a[i].1;
        assert((a + b)[i] == a[i]);
    }
    if covered(b, x) {
        let i = choose|i: int| 0 <= i < b.len() && (#[trigger] b[i]).0 <= x <= b[i].1;
        assert((a + b)[a.len() + i] == b[i]);
    }
}

/// What is cut out of a range lies inside it, is canonical, and is what the
/// range holds outside `r`.
proof fn lemma_cut(i: (i64, i64), r: (i64, i64))
    requires
        i.0 <= i.1,
        r.0 <= r.1,
    ensures
        canonical(cut(i, r)),
        forall|j: int| 0 <= j < cut(i, r).len() ==> i.0 <= (#[trigger] cut(i, r)[j]).0 && cut(i, r)[j].1 <= i.1,
        forall|x: int| covered(cut(i, r), x) == (i.0 <= x <= i.1 && !(r.0 <= x <= r.1)),
{
    let c = cut(i, r);
    assert forall|x: int| covered(c, x) == (i.0 <= x <= i.1 && !(r.0 <= x <= r.1)) by {
        if i.0 <= x <= i.1 && !(r.0 <= x <= r.1) {
            if i.1 < r.0 || i.0 > r.1 {
                assert(c[0].0 <= x <= c[0].1);
            } else if i.0 < r.0 && r.1 < i.1 {
                if x < r.0 {
                    assert(c[0].0 <= x <= c[0].1);
                } else {
                    assert(c[1].0 <= x <= c[1].1);
                }
            } else if i.0 < r.0 {
                assert(c[0].0 <= x <= c[0].1);
            } else {
                assert(c[0].0 <= x <= c[0].1);
            }
        }
    }
}

proof fn lemma_deleted(ranges: Seq<(i64, i64)>, r: (i64, i64))
    requires
        canonical(ranges),
        r.0 <= r.1,
    ensures
        canonical(deleted(ranges, r)),
        forall|j: int|
            0 <= j < deleted(ranges, r).len() ==> exists|i: int|
                0 <= i < ranges.len() && ranges[i].0 <= (#[trigger] deleted(ranges, r)[j]).0
                    && deleted(ranges, r)[j].1 <= ranges[i].1,
        forall|x: int|
            covered(deleted(ranges, r), x) == (covered(ranges, x) && !(r.0 <= x <= r.1)),
    decreases ranges.len(),
{
    if ranges.len() > 0 {
        let front = ranges.drop_last();
        let last = ranges.last();
        assert(canonical(front)) by {
            assert forall|i: int, j: int| 0 <= i < j < front.len() implies (#[trigger] front[i]).1
                < (#[trigger] front[j]).0 by {
                assert(front[i] == ranges[i]);
                assert(front[j] == ranges[j]);
            }
            assert forall|i: int| 0 <= i < front.len() implies (#[trigger] front[i]).0 <= front[i].1 by {
                assert(front[i] == ranges[i]);
            }
        }
        lemma_deleted(front, r);
        assert(ranges[ranges.len() - 1] == last);
        lemma_cut(last, r);
        let d = deleted(front, r);
        let c = cut(last, r);
        assert(deleted(ranges, r) == d + c);
        assert forall|x: int| covered(deleted(ranges, r), x) == (covered(ranges, x) && !(r.0 <= x
            <= r.1)) by {
            lemma_covered_concat(d, c, x);
            assert(ranges =~= front + seq![last]);
            lemma_covered_concat(front, seq![last], x);
            if covered(seq![last], x) {
                let i = choose|i: int| 0 <= i < 1 && (#[trigger] seq![last][i]).0 <= x <= seq![last][i].1;
                assert(seq![last][i] == last);
            }
            if last.0 <= x <= last.1 {
                assert(seq![last][0] == last);
            }
        }
        let dd = d + c;
        assert forall|j: int| 0 <= j < dd.len() implies exists|i: int|
            0 <= i < ranges.len() && ranges[i].0 <= (#[trigger] dd[j]).0 && dd[j].1 <= ranges[i].1 by {
            if j < d.len() {
                assert(dd[j] == d[j]);
                let i = choose|i: int|
                    0 <= i < front.len() && front[i].0 <= (#[trigger] d[j]).0 && d[j].1 <= front[i].1;
                assert(ranges[i] == front[i]);
            } else {
                assert(dd[j] == c[j - d.len()]);
                assert(ranges[ranges.len() - 1] == last);
            }
        }
        assert(canonical(dd)) by {
            assert forall|i: int, j: int| 0 <= i < j < dd.len() implies (#[trigger] dd[i]).1 < (
            #[trigger] dd[j]).0 by {
                if j < d.len() {
                    assert(dd[i] == d[i] && dd[j] == d[j]);
                } else if i >= d.len() {
                    assert(dd[i] == c[i - d.len()] && dd[j] == c[j - d.len()]);
                } else {
                    assert(dd[i] == d[i] && dd[j] == c[j - d.len()]);
                    let k = choose|k: int|
                        0 <= k < front.len() && front[k].0 <= (#[trigger] d[i]).0 && d[i].1 <= front[k].1;
                    assert(ranges[k] == front[k]);
                    assert(ranges[k].1 < ranges[ranges.len() - 1].0);
                }
            }
            assert forall|i: int| 0 <= i < dd.len() implies (#[trigger] dd[i]).0 <= dd[i].1 by {
                if i < d.len() {
                    assert(dd[i] == d[i]);
                } else {
                    assert(dd[i] == c[i - d.len()]);
                }
            }
        }
    } else {
        assert(deleted(ranges, r) =~= Seq::<(i64, i64)>::empty());
    }
}

/// Taking a non-empty range out of ordered, apart ranges leaves ordered,
/// apart ranges that hold exactly the integers they held outside it.
pub proof fn law_del_int_range(ranges: Seq<(i64, i64)>, r: (i64, i64))
    requires
        canonical(ranges),
        r.0 <= r.1,
    ensures
        canonical(deleted(ranges, r)),
        forall|x: int|
            covered(deleted(ranges, r), x) == (covered(ranges, x) && !(r.0 <= x <= r.1)),
{
    lemma_deleted(ranges, r);
}

/// A character joins the set when it is not in it: it is then in the set,
/// the other characters stay as they were, and none is there twice.
pub proof fn law_join_str_set(set: Seq<char>, c: char)
    requires
        no_duplicates(set),
    ensures
        ({
            let new = if has_char(set, c) {
                set
            } else {
                set.push(c)
            };
            &&& has_char(new, c)
            &&& no_duplicates(new)
            &&& forall|d: char| has_char(new, d) == (has_char(set, d) || d == c)
        }),
{
    let new = if has_char(set, c) {
        set
    } else {
        set.push(c)
    };
    if !has_char(set, c) {
        assert(new[set.len() as int] == c);
        assert forall|d: char| has_char(new, d) == (has_char(set, d) || d == c) by {
            if has_char(new, d) {
                let i = choose|i: int| 0 <= i < new.len() && new[i] == d;
                if i < set.len() {
                    assert(set[i] == d);
                }
            }
            if has_char(set, d) {
                let i = choose|i: int| 0 <= i < set.len() && set[i] == d;
                assert(new[i] == d);
            }
        }
    }
}

/// A character taken out of a set without duplicates is no longer in it, and
/// the other characters stay as they were.
pub proof fn law_del_str_set(set: Seq<char>, c: char)
    requires
        no_duplicates(set),
    ensures
        ({
            let new = if has_char(set, c) {
                remove_first(set, c)
            } else {
                set
            };
            &&& !has_char(new, c)
            &&& no_duplicates(new)
            &&& forall|d: char| d != c ==> has_char(new, d) == has_char(set, d)
        }),
{
    if has_char(set, c) {
        lemma_first_index_at(set, c);
        let k = first_index(set, c);
        let new = remove_first(set, c);
        assert(new.len() == set.len() - 1);
        assert forall|i: int| 0 <= i < new.len() implies #[trigger] new[i] == (if i < k {
            set[i]
        } else {
            set[i + 1]
        }) by {}
        assert(no_duplicates(new)) by {
            assert forall|i: int, j: int| 0 <= i < j < new.len() implies new[i] != new[j] by {
                let a = if i < k { i } else { i + 1 };
                let b = if j < k { j } else { j + 1 };
                assert(new[i] == set[a] && new[j] == set[b]);
            }
        }
        assert(!has_char(new, c)) by {
            if has_char(new, c) {
                let i = choose|i: int| 0 <= i < new.len() && new[i] == c;
                let a = if i < k { i } else { i + 1 };
                assert(set[a] == c);
                assert(set[k] == c);
            }
        }
        assert forall|d: char| d != c implies has_char(new, d) == has_char(set, d) by {
            if has_char(set, d) {
                let i = choose|i: int| 0 <= i < set.len() && set[i] == d;
                assert(i != k);
                if i < k {
                    assert(new[i] == d);
                } else {
                    assert(new[i - 1] == d);
                }
            }
            if has_char(new, d) {
                let i = choose|i: int| 0 <= i < new.len() && new[i] == d;
                let a = if i < k { i } else { i + 1 };
                assert(set[a] == d);
            }
        }
    }
}

proof fn lemma_first_index_absent(s: Seq<char>, c: char)
    requires
        !has_char(s, c),
    ensures
        first_index(s.push(c), c) == s.len(),
    decreases s.len(),
{
    if s.len() > 0 {
        assert(s[0] != c);
        assert(s.push(c).drop_first() =~= s.drop_first().push(c));
        assert(!has_char(s.drop_first(), c)) by {
            if has_char(s.drop_first(), c) {
                let i = choose|i: int| 0 <= i < s.drop_first().len() && s.drop_first()[i] == c;
                assert(s[i + 1] == c);
            }
        }
        lemma_first_index_absent(s.drop_first(), c);
    }
}

/// Taking out a character that has just joined the set, when it was not in
/// it before, gives the set back as it was.
pub proof fn law_join_then_del_str_set(set: Seq<char>, c: char)
    requires
        !has_char(set, c),
    ensures
        remove_first(set.push(c), c) == set,
{
    lemma_first_index_absent(set, c);
    assert(set.push(c).take(set.len() as int) + set.push(c).skip(set.len() as int + 1) =~= set);
}

proof fn lemma_first_index_at(s: Seq<char>, c: char)
    requires
        has_char(s, c),
    ensures
        0 <= first_index(s, c) < s.len(),
        s[first_index(s, c)] == c,
    decreases s.len(),
{
    if s[0] != c {
        let i = choose|i: int| 0 <= i < s.len() && s[i] == c;
        assert(s.drop_first()[i - 1] == c);
        lemma_first_index_at(s.drop_first(), c);
    }
}

} // verus!
