//! The parser of scripts: each line is text with variables in round
//! brackets, `( materials ; types ; quantity ; end char )`.
use vstd::prelude::*;
use crate::attribute_table::{attribute_of, lookup_attribute};
use crate::error::{CompilerError, CompilerErrorView, Location};
use crate::number::{float_text, is_float_text, parse_i128, parse_i128_spec, parse_i64, parse_i64_spec, parse_u64, parse_u64_spec};
use crate::text::{chars_of, find, find_chars, has_char, lit, remove_first, slice, split, split_chars, string_of, trim, trim_chars};
use crate::variable::{
    attr_view,
    AttrView,
    Attribute,
    FloatMaterialView,
    Variable,
    VariableView,
    const_variable,
    deleted,
    fresh_variable,
    joined,
    make_const_variable,
};

verus! {

/// The compiler error with message `msg` at line `line`, character `word`.
pub open spec fn err_at(msg: Seq<char>, file: Seq<char>, line: usize, word: int) -> CompilerErrorView {
    CompilerErrorView { msg, file_name: file, line_id: line, word_id: word as usize }
}

/// Where field `k` of a variable starts, counted from its `(`.
pub open spec fn field_start(fields: Seq<Seq<char>>, k: int) -> int
    decreases k,
{
    if k <= 0 {
        1
    } else {
        field_start(fields, k - 1) + fields[k - 1].len() + 1
    }
}

/// The materials named by the non-empty pieces: the attribute of the name,
/// or the name itself when it names none.
pub open spec fn materials_of(pieces: Seq<Seq<char>>) -> Seq<AttrView>
    decreases pieces.len(),
{
    if pieces.len() == 0 {
        seq![]
    } else {
        let m = materials_of(pieces.drop_last());
        let p = pieces.last();
        if p.len() == 0 {
            m
        } else {
            match attribute_of(p) {
                Some(a) => m.push(a),
                None => m.push(AttrView::Uncertain(p)),
            }
        }
    }
}

/// The types named by the pieces; `None` when one of them names nothing.
pub open spec fn types_of(pieces: Seq<Seq<char>>) -> Option<Seq<AttrView>>
    decreases pieces.len(),
{
    if pieces.len() == 0 {
        Some(seq![])
    } else {
        match types_of(pieces.drop_last()) {
            None => None,
            Some(t) => match attribute_of(pieces.last()) {
                Some(a) => Some(t.push(a)),
                None => None,
            },
        }
    }
}

/// The end character that `u` names: the characters of a material, or `u`
/// itself when it names nothing; `None` when it names another attribute.
pub open spec fn end_char_of(u: Seq<char>) -> Option<Seq<char>> {
    match attribute_of(u) {
        Some(AttrView::StrSet(x)) => Some(x),
        Some(_) => None,
        None => Some(u),
    }
}

/// The text a material stands for, and whether it is taken out (a `\` in
/// front) rather than added.
pub open spec fn material_text(m: AttrView) -> Option<(Seq<char>, bool)> {
    match m {
        AttrView::Uncertain(x) => if x.len() > 0 && x[0] == '\\' {
            Some((x.drop_first(), true))
        } else {
            Some((x, false))
        },
        AttrView::StrSet(x) => Some((x, false)),
        AttrView::Except(b) => match *b {
            AttrView::StrSet(x) => Some((x, true)),
            _ => None,
        },
        _ => None,
    }
}

/// The set of characters after each character of `s` joins it (or, when
/// `remove`, is taken out of it), in order.
pub open spec fn str_fold(set: Seq<char>, s: Seq<char>, remove: bool) -> Seq<char>
    decreases s.len(),
{
    if s.len() == 0 {
        set
    } else {
        let st = str_fold(set, s.drop_last(), remove);
        let c = s.last();
        if remove {
            if has_char(st, c) {
                remove_first(st, c)
            } else {
                st
            }
        } else {
            if has_char(st, c) {
                st
            } else {
                st.push(c)
            }
        }
    }
}

/// An integer material `L..R`.
pub open spec fn int_step(s: Seq<char>, remove: bool, v: VariableView, fp: i128) -> Result<
    (VariableView, i128),
    Seq<char>,
> {
    let d = find(s, ".."@)->0;
    match (parse_i64_spec(s.take(d)), parse_i64_spec(s.skip(d + 2))) {
        (Some(l), Some(r)) => Ok(
            (
                VariableView {
                    int_ranges: if remove {
                        deleted(v.int_ranges, (l, r))
                    } else {
                        joined(v.int_ranges, (l, r))
                    },
                    ..v
                },
                fp,
            ),
        ),
        _ => Err("the border of NumberRange must be a number"@),
    }
}

/// A float material `L..R:.Pf`: its borders are kept as text, and all the
/// float materials of a variable give the same `P`.
pub open spec fn float_step(s: Seq<char>, remove: bool, v: VariableView, fp: i128) -> Result<
    (VariableView, i128),
    Seq<char>,
> {
    let d = find(s, ".."@)->0;
    let c = find(s, ":."@)->0;
    if c < d + 2 || c + 2 > s.len() - 1 {
        Err("Invalid Sytanx"@)
    } else if !float_text(s.take(d)) || !float_text(s.subrange(d + 2, c)) {
        Err("the border of NumberRange must be a number"@)
    } else {
        match parse_i128_spec(s.subrange(c + 2, s.len() - 1)) {
            None => Err("the precision of NumberRange must be positive integer"@),
            Some(p) => if fp != -1 && p != fp {
                Err("float precision in one variable must be the same"@)
            } else {
                Ok(
                    (
                        VariableView {
                            float_materials: v.float_materials.push(
                                FloatMaterialView {
                                    low: s.take(d),
                                    high: s.subrange(d + 2, c),
                                    remove,
                                },
                            ),
                            ..v
                        },
                        p,
                    ),
                )
            },
        }
    }
}

/// A material with its type: `=` works the type out from the material (a
/// float has `..` and `:.`, an integer `..`, anything else is characters).
/// Numbers are read from the trimmed text; characters are taken as they are,
/// so that `SPACE` adds a space.
pub open spec fn apply_material(m: AttrView, t: AttrView, v: VariableView, fp: i128) -> Result<
    (VariableView, i128),
    Seq<char>,
> {
    match material_text(m) {
        None => Err("Internal CompilerError"@),
        Some((text, remove)) => {
            let s = trim(text);
            let dot = find(s, ".."@);
            let col = find(s, ":."@);
            match t {
                AttrView::Type(n) => if n == "ANY"@ {
                    if dot is Some && col is Some {
                        float_step(s, remove, v, fp)
                    } else if dot is Some {
                        int_step(s, remove, v, fp)
                    } else {
                        Ok((VariableView { str_set: str_fold(v.str_set, text, remove), ..v }, fp))
                    }
                } else if n == "int"@ {
                    if dot is None {
                        Err("IntRange syntax mismatched (Tips: [L..R])"@)
                    } else {
                        int_step(s, remove, v, fp)
                    }
                } else if n == "float"@ {
                    if dot is None || col is None {
                        Err("FloatRange syntax mismatched (Tips: [L..R]:.[N]f)"@)
                    } else {
                        float_step(s, remove, v, fp)
                    }
                } else if n == "string"@ {
                    Ok((VariableView { str_set: str_fold(v.str_set, text, remove), ..v }, fp))
                } else {
                    Ok((v, fp))
                },
                _ => Ok((v, fp)),
            }
        },
    }
}

/// The first `k` materials with their types, in order, from `base`; the
/// second value is the float precision met so far (`-1`: none).
pub open spec fn apply_all(
    mats: Seq<AttrView>,
    types: Seq<AttrView>,
    k: int,
    base: VariableView,
) -> Result<(VariableView, i128), Seq<char>>
    decreases k,
{
    if k <= 0 {
        Ok((base, -1i128))
    } else {
        match apply_all(mats, types, k - 1, base) {
            Err(e) => Err(e),
            Ok((v, fp)) => apply_material(mats[k - 1], types[k - 1], v, fp),
        }
    }
}

/// The variable made of the materials and types, once quantity and end
/// character are known.
pub open spec fn finish_variable(
    mats: Seq<AttrView>,
    types: Seq<AttrView>,
    q: u64,
    e: Seq<char>,
    open: int,
    file: Seq<char>,
    line: usize,
) -> Result<VariableView, CompilerErrorView> {
    let base = VariableView { quantity: q, end_char: e, constant: false, ..fresh_variable() };
    if mats.len() != types.len() {
        if mats.len() == 1 && mats[0] == AttrView::Tag("BEGIN"@) {
            Ok(VariableView { constant: true, tag: 1, ..base })
        } else if mats.len() == 1 && mats[0] == AttrView::Tag("END"@) {
            Ok(VariableView { constant: true, tag: 2, ..base })
        } else {
            Err(err_at("number of material and type must be the same"@, file, line, open))
        }
    } else {
        match apply_all(mats, types, mats.len() as int, base) {
            Err(msg) => Err(err_at(msg, file, line, open)),
            Ok((v, fp)) => if fp == -1 {
                Ok(v)
            } else if 0 <= fp <= 255 {
                Ok(VariableView { float_digits: Some(fp as u8), ..v })
            } else {
                Err(
                    err_at(
                        "the precision of NumberRange must be positive integer"@,
                        file,
                        line,
                        open,
                    ),
                )
            },
        }
    }
}

/// The variable written `code` (from its `(` to its `)`), which starts at
/// character `open` of line `line`.
#[verifier::opaque]
pub open spec fn spec_parse_variable(code: Seq<char>, open: int, file: Seq<char>, line: usize) -> Result<
    VariableView,
    CompilerErrorView,
> {
    let fields = split(code.subrange(1, code.len() - 1), ';');
    if fields.len() > 4 {
        Err(
            err_at(
                "too much attributes in one variable"@,
                file,
                line,
                open + field_start(fields, 4) - 1,
            ),
        )
    } else if fields[0].len() == 0 {
        Err(err_at("no materials in this variable"@, file, line, open + 1))
    } else {
        let mats = materials_of(split(fields[0], ' '));
        let types = if fields.len() > 1 && fields[1].len() > 0 {
            types_of(split(trim(fields[1]), ' '))
        } else {
            Some(seq![])
        };
        match types {
            None => Err(
                err_at(
                    "has unkown type in this variable"@,
                    file,
                    line,
                    open + field_start(fields, 1),
                ),
            ),
            Some(types) => {
                let quantity = if fields.len() > 2 && fields[2].len() > 0 {
                    match parse_u64_spec(trim(fields[2])) {
                        Some(q) => if q > 0 {
                            Some(q)
                        } else {
                            None
                        },
                        None => None,
                    }
                } else {
                    Some(1u64)
                };
                match quantity {
                    None => Err(
                        err_at(
                            "the argument quantity must be positive integer"@,
                            file,
                            line,
                            open + field_start(fields, 2),
                        ),
                    ),
                    Some(q) => {
                        let ec = if fields.len() > 3 && fields[3].len() > 0 {
                            end_char_of(trim(fields[3]))
                        } else {
                            Some(seq![])
                        };
                        match ec {
                            None => Err(
                                err_at(
                                    "end_char cannot be a sytanx character"@,
                                    file,
                                    line,
                                    open + field_start(fields, 3),
                                ),
                            ),
                            Some(e) => finish_variable(mats, types, q, e, open, file, line),
                        }
                    },
                }
            },
        }
    }
}

/// The state of a scan of a line for brackets: the depth, where the
/// outermost open bracket is, the pairs of outermost brackets found, and the
/// first `)` without a `(`.
pub struct Scan {
    pub depth: int,
    pub open: int,
    pub pairs: Seq<(int, int)>,
    pub unpaired: Option<int>,
}

pub open spec fn scan(line: Seq<char>) -> Scan
    decreases line.len(),
{
    if line.len() == 0 {
        Scan { depth: 0, open: 0, pairs: seq![], unpaired: None }
    } else {
        let s = scan(line.drop_last());
        let i = line.len() - 1;
        let c = line.last();
        if s.unpaired is Some {
            s
        } else if c == '(' {
            Scan { depth: s.depth + 1, open: if s.depth == 0 {
                i
            } else {
                s.open
            }, ..s }
        } else if c == ')' {
            if s.depth == 0 {
                Scan { unpaired: Some(i), ..s }
            } else if s.depth == 1 {
                Scan { depth: 0, pairs: s.pairs.push((s.open, i)), ..s }
            } else {
                Scan { depth: s.depth - 1, ..s }
            }
        } else {
            s
        }
    }
}

/// Where the text after pair `k - 1` starts.
pub open spec fn after_pair(pairs: Seq<(int, int)>, k: int) -> int {
    if k <= 0 {
        0
    } else {
        pairs[k - 1].1 + 1
    }
}

/// The tokens of the first `k` pairs of brackets of a line: the text before
/// each (when there is some) and the variable it holds.
pub open spec fn pair_tokens(
    line: Seq<char>,
    pairs: Seq<(int, int)>,
    k: int,
    file: Seq<char>,
    line_id: usize,
) -> Result<Seq<VariableView>, CompilerErrorView>
    decreases k,
{
    if k <= 0 {
        Ok(seq![])
    } else {
        match pair_tokens(line, pairs, k - 1, file, line_id) {
            Err(e) => Err(e),
            Ok(t) => {
                let (o, c) = pairs[k - 1];
                let gap = line.subrange(after_pair(pairs, k - 1), o);
                let t1 = if gap.len() > 0 {
                    t.push(const_variable(gap))
                } else {
                    t
                };
                match spec_parse_variable(line.subrange(o, c + 1), o, file, line_id) {
                    Err(e) => Err(e),
                    Ok(v) => Ok(t1.push(v)),
                }
            },
        }
    }
}

/// The tokens of a line: its text and variables in order, then a newline.
pub open spec fn spec_parse_line(line: Seq<char>, file: Seq<char>, line_id: usize) -> Result<
    Seq<VariableView>,
    CompilerErrorView,
> {
    let s = scan(line);
    match s.unpaired {
        Some(w) => Err(err_at("Unpaired right bracket"@, file, line_id, w)),
        None => match pair_tokens(line, s.pairs, s.pairs.len() as int, file, line_id) {
            Err(e) => Err(e),
            Ok(t) => {
                let tail = line.skip(after_pair(s.pairs, s.pairs.len() as int));
                let t1 = if tail.len() > 0 {
                    t.push(const_variable(tail))
                } else {
                    t
                };
                Ok(t1.push(const_variable(seq!['\n'])))
            },
        },
    }
}

/// The tokens of the first `k` lines.
pub open spec fn parse_lines(lines: Seq<Seq<char>>, k: int, file: Seq<char>) -> Result<
    Seq<VariableView>,
    CompilerErrorView,
>
    decreases k,
{
    if k <= 0 {
        Ok(seq![])
    } else {
        match parse_lines(lines, k - 1, file) {
            Err(e) => Err(e),
            Ok(t) => match spec_parse_line(lines[k - 1], file, (k - 1) as usize) {
                Err(e) => Err(e),
                Ok(u) => Ok(t + u),
            },
        }
    }
}

/// The tokens of a script, line by line.
pub open spec fn spec_parse(file: Seq<char>, buffer: Seq<char>) -> Result<
    Seq<VariableView>,
    CompilerErrorView,
> {
    let lines = split(buffer, '\n');
    parse_lines(lines, lines.len() as int, file)
}

/// Whether an outcome of the library holds what a spec outcome says.
pub open spec fn same_variable(r: Result<Variable, CompilerError>, s: Result<VariableView, CompilerErrorView>) -> bool {
    match (r, s) {
        (Ok(v), Ok(sv)) => v@ == sv,
        (Err(e), Err(se)) => e@ == se,
        _ => false,
    }
}

pub open spec fn views(t: Seq<Variable>) -> Seq<VariableView> {
    t.map_values(|v: Variable| v@)
}

pub open spec fn same_tokens(
    r: Result<Vec<Variable>, CompilerError>,
    s: Result<Seq<VariableView>, CompilerErrorView>,
) -> bool {
    match (r, s) {
        (Ok(v), Ok(sv)) => views(v@) == sv,
        (Err(e), Err(se)) => e@ == se,
        _ => false,
    }
}

/// The parser of one script.
pub struct Parser {
    location: Location,
    buffer: String,
}

impl Parser {
    /// The name of the script's file.
    pub closed spec fn file_name(&self) -> Seq<char> {
        self.location.file_name@
    }

    /// The text of the script.
    pub closed spec fn source(&self) -> Seq<char> {
        self.buffer@
    }

    /// A parser of the script `buffer`, read from the file `file_name`.
    pub fn new(file_name: String, buffer: String) -> (res: Self)
        ensures
            res.file_name() == file_name@,
            res.source() == buffer@,
    {
        Parser { location: Location::new(file_name, 0, 0), buffer }
    }

    fn error(&self, msg: &str, line_id: usize, word_id: usize) -> (e: CompilerError)
        ensures
            e@ == err_at(msg@, self.file_name(), line_id, word_id as int),
    {
        let loc = Location::new(self.location.file_name.clone(), line_id, word_id);
        CompilerError::new(msg, &loc)
    }

    fn error_chars(&self, msg: &Vec<char>, line_id: usize, word_id: usize) -> (e: CompilerError)
        ensures
            e@ == err_at(msg@, self.file_name(), line_id, word_id as int),
    {
        let m = string_of(msg);
        self.error(m.as_str(), line_id, word_id)
    }

    /// The tokens of the script.
    pub fn parse(&mut self) -> (res: Result<Vec<Variable>, CompilerError>)
        ensures
            same_tokens(res, spec_parse(old(self).file_name(), old(self).source())),
            final(self).file_name() == old(self).file_name(),
            final(self).source() == old(self).source(),
    {
        let code = chars_of(self.buffer.as_str());
        self._parse(&code)
    }

    fn _parse(&self, code: &Vec<char>) -> (res: Result<Vec<Variable>, CompilerError>)
        requires
            code@ == self.source(),
        ensures
            same_tokens(res, spec_parse(self.file_name(), self.source())),
    {
        let lines = split_chars(code, '\n');
        let ghost slines = split(code@, '\n');
        let mut result: Vec<Variable> = Vec::new();
        let n = lines.len();
        assert(views(result@) =~= Seq::<VariableView>::empty());
        for line_id in 0..n
            invariant
                n == lines@.len() == slines.len(),
                slines == split(code@, '\n'),
                code@ == self.source(),
                forall|k: int| 0 <= k < n ==> #[trigger] lines@[k]@ == slines[k],
                parse_lines(slines, line_id as int, self.file_name()) == Ok::<
                    Seq<VariableView>,
                    CompilerErrorView,
                >(views(result@)),
        {
            assert(lines@[line_id as int]@ == slines[line_id as int]);
            assert(((line_id + 1) - 1) as usize == line_id);
            match self.parse_line(&lines[line_id], line_id) {
                Ok(res) => {
                    let ghost before = views(result@);
                    let mut res = res;
                    result.append(&mut res);
                    assert(views(result@) =~= before + spec_parse_line(
                        slines[line_id as int],
                        self.file_name(),
                        line_id,
                    )->Ok_0);
                },
                Err(ce) => {
                    assert(spec_parse_line(slines[line_id as int], self.file_name(), line_id) == Err::<Seq<VariableView>, CompilerErrorView>(ce@));
                    assert(parse_lines(slines, line_id as int + 1, self.file_name()) == Err::<Seq<VariableView>, CompilerErrorView>(ce@));
                    proof {
                        lemma_parse_lines_err(slines, line_id as int + 1, n as int, self.file_name());
                    }
                    assert(parse_lines(slines, n as int, self.file_name()) == Err::<Seq<VariableView>, CompilerErrorView>(ce@));
                    assert(spec_parse(self.file_name(), self.source()) == parse_lines(slines, n as int, self.file_name()));
                    return Err(ce);
                },
            }
        }
        Ok(result)
    }

    fn parse_line(&self, line: &Vec<char>, line_id: usize) -> (res: Result<Vec<Variable>, CompilerError>)
        ensures
            same_tokens(res, spec_parse_line(line@, self.file_name(), line_id)),
    {
        let n = line.len();
        let pairs = match scan_brackets(line) {
            Ok(p) => p,
            Err(w) => {
                return Err(self.error("Unpaired right bracket", line_id, w));
            },
        };
        proof {
            lemma_scan_wf(line@);
        }
        let ghost spairs = scan(line@).pairs;
        let mut result: Vec<Variable> = Vec::new();
        let np = pairs.len();
        let mut prev: usize = 0;
        assert(views(result@) =~= Seq::<VariableView>::empty());
        for k in 0..np
            invariant
                np == pairs@.len() == spairs.len(),
                spairs == scan(line@).pairs,
                spairs == pair_views(pairs@),
                n == line@.len(),
                scan_wf(line@, spairs),
                prev == after_pair(spairs, k as int),
                prev <= n,
                scan(line@).unpaired is None,
                pair_tokens(line@, spairs, k as int, self.file_name(), line_id) == Ok::<
                    Seq<VariableView>,
                    CompilerErrorView,
                >(views(result@)),
        {
            let (o, c) = pairs[k];
            assert(spairs[k as int] == (o as int, c as int));
            match self.pair_step(line, &mut result, prev, o, c, line_id, Ghost(spairs), Ghost(k as int)) {
                Ok(()) => {},
                Err(e) => {
                    proof {
                        lemma_pair_tokens_err(line@, spairs, k as int + 1, np as int, self.file_name(), line_id);
                    }
                    return Err(e);
                },
            }
            prev = c + 1;
        }
        self.finish_line(line, result, prev, line_id, Ghost(spairs))
    }

    /// The text before pair `k` of a line, then the variable it holds.
    fn pair_step(
        &self,
        line: &Vec<char>,
        result: &mut Vec<Variable>,
        prev: usize,
        o: usize,
        c: usize,
        line_id: usize,
        Ghost(spairs): Ghost<Seq<(int, int)>>,
        Ghost(k): Ghost<int>,
    ) -> (res: Result<(), CompilerError>)
        requires
            scan_wf(line@, spairs),
            0 <= k < spairs.len(),
            spairs[k] == (o as int, c as int),
            prev == after_pair(spairs, k),
            pair_tokens(line@, spairs, k, self.file_name(), line_id) == Ok::<
                Seq<VariableView>,
                CompilerErrorView,
            >(views(old(result)@)),
        ensures
            match res {
                Ok(()) => pair_tokens(line@, spairs, k + 1, self.file_name(), line_id) == Ok::<
                    Seq<VariableView>,
                    CompilerErrorView,
                >(views(final(result)@)),
                Err(e) => pair_tokens(line@, spairs, k + 1, self.file_name(), line_id) == Err::<
                    Seq<VariableView>,
                    CompilerErrorView,
                >(e@),
            },
    {
        assert(spairs[k].0 < spairs[k].1 < line@.len());
        assert(k > 0 ==> spairs[k].0 > spairs[k - 1].1);
        let ghost before = views(result@);
        if prev < o {
            let gap = slice(line, prev, o);
            let gs = string_of(&gap);
            result.push(make_const_variable(gs.as_str()));
        }
        let ghost mid = views(result@);
        assert(mid =~= (if line@.subrange(prev as int, o as int).len() > 0 {
            before.push(const_variable(line@.subrange(prev as int, o as int)))
        } else {
            before
        }));
        assert(spairs[k].1 == c as int);
        let n = line.len();
        assert(c < n);
        let code = slice(line, o, c + 1);
        match self.parse_variable(&code, o, line_id) {
            Ok(v) => {
                result.push(v);
                assert(views(result@) =~= mid.push(v@));
                Ok(())
            },
            Err(e) => Err(e),
        }
    }

    /// The text after the last variable of a line, then the newline.
    fn finish_line(
        &self,
        line: &Vec<char>,
        result: Vec<Variable>,
        prev: usize,
        line_id: usize,
        Ghost(spairs): Ghost<Seq<(int, int)>>,
    ) -> (res: Result<Vec<Variable>, CompilerError>)
        requires
            scan(line@).unpaired is None,
            spairs == scan(line@).pairs,
            prev == after_pair(spairs, spairs.len() as int),
            prev <= line@.len(),
            pair_tokens(line@, spairs, spairs.len() as int, self.file_name(), line_id) == Ok::<
                Seq<VariableView>,
                CompilerErrorView,
            >(views(result@)),
        ensures
            same_tokens(res, spec_parse_line(line@, self.file_name(), line_id)),
    {
        let mut result = result;
        let n = line.len();
        let ghost before = views(result@);
        if prev < n {
            let tail = slice(line, prev, n);
            let ts = string_of(&tail);
            result.push(make_const_variable(ts.as_str()));
        }
        assert(line@.skip(prev as int) =~= line@.subrange(prev as int, n as int));
        let ghost mid = views(result@);
        assert(mid =~= (if line@.skip(prev as int).len() > 0 {
            before.push(const_variable(line@.skip(prev as int)))
        } else {
            before
        }));
        let nl = lit("\n");
        proof {
            reveal_strlit("\n");
        }
        let nls = string_of(&nl);
        result.push(make_const_variable(nls.as_str()));
        assert(nl@ =~= seq!['\n']);
        assert(views(result@) =~= mid.push(const_variable(seq!['\n'])));
        Ok(result)
    }

    /// The variable `code` (from `(` to `)`) at character `open` of line `line_id`.
    fn parse_variable(&self, code: &Vec<char>, open: usize, line_id: usize) -> (res: Result<
        Variable,
        CompilerError,
    >)
        requires
            code.len() >= 2,
            open + code.len() <= usize::MAX,
        ensures
            same_variable(res, spec_parse_variable(code@, open as int, self.file_name(), line_id)),
    {
        reveal(spec_parse_variable);
        let inner = slice(code, 1, code.len() - 1);
        let fields = split_chars(&inner, ';');
        let ghost sf = split(code@.subrange(1, code@.len() - 1), ';');
        proof {
            lemma_split_len(code@.subrange(1, code@.len() - 1), ';');
            lemma_split_total(code@.subrange(1, code@.len() - 1), ';');
        }
        // where each of the first five fields starts, counted from `(`
        let mut starts: Vec<usize> = Vec::new();
        let nf = fields.len();
        assert(sf.len() == nf);
        let mut acc: usize = 1;
        let mut k: usize = 0;
        while k <= nf && k < 5
            invariant
                nf == fields@.len() == sf.len(),
                forall|j: int| 0 <= j < nf ==> #[trigger] fields@[j]@ == sf[j],
                k <= nf + 1,
                k <= 5,
                starts@.len() == k,
                forall|j: int| 0 <= j < k ==> #[trigger] starts@[j] == field_start(sf, j),
                k <= nf ==> acc == field_start(sf, k as int),
                forall|j: int| 0 <= j < k ==> 1 <= #[trigger] starts@[j] <= code@.len(),
                field_start(sf, nf as int) == code@.len(),
                open + code.len() <= usize::MAX,
            decreases 6 - k,
        {
            proof {
                lemma_field_start_mono(sf, k as int, nf as int);
                lemma_field_start_mono(sf, 0, k as int);
            }
            starts.push(acc);
            if k < nf {
                proof {
                    lemma_field_start_mono(sf, k + 1, nf as int);
                }
                acc = acc + fields[k].len() + 1;
            }
            k += 1;
        }
        if fields.len() > 4 {
            proof {
                lemma_field_start_mono(sf, 1, 4);
                lemma_field_start_mono(sf, 4, nf as int);
            }
            let w = open + starts[4] - 1;
            return Err(self.error("too much attributes in one variable", line_id, w));
        }
        if fields[0].len() == 0 {
            return Err(self.error("no materials in this variable", line_id, open + 1));
        }
        let materials = materials_list(&fields[0]);
        let mut types: Vec<Attribute> = Vec::new();
        if fields.len() > 1 && fields[1].len() > 0 {
            match types_list(&fields[1]) {
                Some(t) => {
                    types = t;
                },
                None => {
                    let w = open + starts[1];
                    return Err(self.error("has unkown type in this variable", line_id, w));
                },
            }
        }
        assert(attr_views(types@) =~= Seq::<AttrView>::empty() || (fields.len() > 1
            && fields[1].len() > 0));
        let mut quantity: u64 = 1;
        if fields.len() > 2 && fields[2].len() > 0 {
            match parse_u64(&trim_chars(&fields[2])) {
                Some(q) if q > 0 => {
                    quantity = q;
                },
                _ => {
                    let w = open + starts[2];
                    return Err(
                        self.error("the argument quantity must be positive integer", line_id, w),
                    );
                },
            }
        }
        let mut end_char: String = String::new();
        if fields.len() > 3 && fields[3].len() > 0 {
            match end_char_value(&fields[3]) {
                Some(e) => {
                    end_char = e;
                },
                None => {
                    let w = open + starts[3];
                    return Err(self.error("end_char cannot be a sytanx character", line_id, w));
                },
            }
        }
        self.finish(materials, types, quantity, end_char, open, line_id)
    }

    /// The variable made of the materials and types, once quantity and end
    /// character are known.
    #[verifier::loop_isolation(false)]
    fn finish(
        &self,
        materials: Vec<Attribute>,
        types: Vec<Attribute>,
        quantity: u64,
        end_char: String,
        open: usize,
        line_id: usize,
    ) -> (res: Result<Variable, CompilerError>)
        ensures
            same_variable(
                res,
                finish_variable(
                    attr_views(materials@),
                    attr_views(types@),
                    quantity,
                    end_char@,
                    open as int,
                    self.file_name(),
                    line_id,
                ),
            ),
    {
        let ghost ec = end_char@;
        let ghost base = VariableView { quantity, end_char: ec, constant: false, ..fresh_variable() };
        let mut result: Variable = Variable::new();
        result.set_quantity(quantity);
        result.set_end_char(end_char);
        result.set_to_variable();
        assert(result@ == base);
        if materials.len() != types.len() {
            if materials.len() == 1 && is_tag_named(&materials[0], "BEGIN") {
                result.set_to_tag(1);
                return Ok(result);
            } else if materials.len() == 1 && is_tag_named(&materials[0], "END") {
                result.set_to_tag(2);
                return Ok(result);
            } else {
                return Err(
                    self.error("number of material and type must be the same", line_id, open),
                );
            }
        }
        let mut float_precision: i128 = -1;
        let nm = materials.len();
        for i in 0..nm
            invariant
                nm == materials@.len() == types@.len(),
                base == (VariableView { quantity, end_char: ec, constant: false, ..fresh_variable() }),
                apply_all(attr_views(materials@), attr_views(types@), i as int, base) == Ok::<
                    (VariableView, i128),
                    Seq<char>,
                >((result@, float_precision)),
        {
            let ghost pre_v = result@;
            let ghost pre_fp = float_precision;
            assert(materials@[i as int]@ == attr_views(materials@)[i as int]);
            assert(types@[i as int]@ == attr_views(types@)[i as int]);
            match apply_one(&materials[i], &types[i], &mut result, &mut float_precision) {
                Ok(()) => {},
                Err(msg) => {
                    assert(apply_all(attr_views(materials@), attr_views(types@), i + 1, base)
                        == Err::<(VariableView, i128), Seq<char>>(msg@));
                    proof {
                        lemma_apply_all_err(
                            attr_views(materials@),
                            attr_views(types@),
                            i as int + 1,
                            nm as int,
                            base,
                        );
                    }
                    return Err(self.error_chars(&msg, line_id, open));
                },
            }
        }
        if float_precision != -1 {
            if 0 <= float_precision && float_precision <= 255 {
                result.set_float_precision(float_precision as u8);
            } else {
                return Err(
                    self.error(
                        "the precision of NumberRange must be positive integer",
                        line_id,
                        open,
                    ),
                );
            }
        }
        Ok(result)
    }
}

/// The materials named by the non-empty pieces of `f`.
fn materials_list(f: &Vec<char>) -> (res: Vec<Attribute>)
    ensures
        attr_views(res@) == materials_of(split(f@, ' ')),
{
    let pieces = split_chars(f, ' ');
    let ghost sp = split(f@, ' ');
    let mut materials: Vec<Attribute> = Vec::new();
    assert(sp.take(0) =~= Seq::<Seq<char>>::empty());
    assert(attr_views(materials@) =~= Seq::<AttrView>::empty());
    for k in 0..pieces.len()
        invariant
            pieces@.len() == sp.len(),
            sp == split(f@, ' '),
            forall|j: int| 0 <= j < sp.len() ==> #[trigger] pieces@[j]@ == sp[j],
            attr_views(materials@) == materials_of(sp.take(k as int)),
    {
        assert(sp.take(k + 1).drop_last() =~= sp.take(k as int));
        assert(pieces@[k as int]@ == sp[k as int]);
        let ghost before = attr_views(materials@);
        if pieces[k].len() > 0 {
            match lookup_attribute(&pieces[k]) {
                Some(a) => {
                    materials.push(a);
                    assert(attr_views(materials@) =~= before.push(a@));
                },
                None => {
                    let u = string_of(&pieces[k]);
                    materials.push(Attribute::Uncertain(u));
                    assert(attr_views(materials@) =~= before.push(AttrView::Uncertain(u@)));
                },
            }
        }
    }
    assert(sp.take(pieces.len() as int) =~= sp);
    materials
}

/// The types named by the pieces of `trim(f)`; `None` when one names nothing.
fn types_list(f: &Vec<char>) -> (res: Option<Vec<Attribute>>)
    ensures
        match res {
            Some(t) => types_of(split(trim(f@), ' ')) == Some(attr_views(t@)),
            None => types_of(split(trim(f@), ' ')) is None,
        },
{
    let tpieces = split_chars(&trim_chars(f), ' ');
    let ghost tp = split(trim(f@), ' ');
    let mut types: Vec<Attribute> = Vec::new();
    assert(tp.take(0) =~= Seq::<Seq<char>>::empty());
    assert(attr_views(types@) =~= Seq::<AttrView>::empty());
    for k in 0..tpieces.len()
        invariant
            tpieces@.len() == tp.len(),
            tp == split(trim(f@), ' '),
            forall|j: int| 0 <= j < tp.len() ==> #[trigger] tpieces@[j]@ == tp[j],
            types_of(tp.take(k as int)) == Some(attr_views(types@)),
    {
        assert(tp.take(k + 1).drop_last() =~= tp.take(k as int));
        assert(tpieces@[k as int]@ == tp[k as int]);
        match lookup_attribute(&tpieces[k]) {
            Some(a) => {
                let ghost before = attr_views(types@);
                types.push(a);
                assert(attr_views(types@) =~= before.push(a@));
            },
            None => {
                proof {
                    lemma_types_of_none(tp, k as int + 1);
                }
                return None;
            },
        }
    }
    assert(tp.take(tpieces.len() as int) =~= tp);
    Some(types)
}

/// The end character that `trim(f)` names.
fn end_char_value(f: &Vec<char>) -> (res: Option<String>)
    ensures
        match res {
            Some(e) => end_char_of(trim(f@)) == Some(e@),
            None => end_char_of(trim(f@)) is None,
        },
{
    let uncheck = trim_chars(f);
    match lookup_attribute(&uncheck) {
        Some(Attribute::StrSet(v)) => Some(v),
        Some(_) => None,
        None => Some(string_of(&uncheck)),
    }
}

pub open spec fn attr_views(t: Seq<Attribute>) -> Seq<AttrView> {
    t.map_values(|a: Attribute| a@)
}

fn is_tag_named(a: &Attribute, name: &str) -> (r: bool)
    ensures
        r == (a@ == AttrView::Tag(name@)),
{
    match a {
        Attribute::Tag(s) => {
            let c = chars_of(s.as_str());
            crate::text::is_lit(&c, name)
        },
        _ => false,
    }
}

/// The text of a material and whether it is taken out.
fn material_text_of(m: &Attribute) -> (r: Option<(Vec<char>, bool)>)
    ensures
        r is Some <==> material_text(m@) is Some,
        r matches Some(p) ==> p.0@ == material_text(m@).unwrap().0 && p.1 == material_text(m@).unwrap().1,
{
    match m {
        Attribute::Uncertain(x) => {
            let c = chars_of(x.as_str());
            assert(m@ == AttrView::Uncertain(x@));
            assert(c@ == x@);
            if c.len() > 0 && c[0] == '\\' {
                let rest = slice(&c, 1, c.len());
                assert(rest@ =~= c@.drop_first());
                assert(material_text(m@) == Some((x@.drop_first(), true)));
                assert(material_text(m@) == Some((rest@, true)));
                Some((rest, true))
            } else {
                assert(!(x@.len() > 0 && x@[0] == '\\'));
                assert(material_text(m@) == Some((c@, false)));
                Some((c, false))
            }
        },
        Attribute::StrSet(x) => Some((chars_of(x.as_str()), false)),
        Attribute::Except(b) => {
            assert(m@ == AttrView::Except(Box::new(attr_view(**b))));
            match &**b {
                Attribute::StrSet(x) => {
                    assert(attr_view(**b) == AttrView::StrSet(x@));
                    Some((chars_of(x.as_str()), true))
                },
                _ => {
                    assert(attr_view(**b) !is StrSet);
                    None
                },
            }
        },
        _ => None,
    }
}

fn int_material(s: &Vec<char>, dot: usize, remove: bool, v: &mut Variable, fp: &mut i128) -> (res:
    Result<(), Vec<char>>)
    requires
        find(s@, ".."@) == Some(dot as int),
        dot + 2 <= s.len(),
    ensures
        match (res, int_step(s@, remove, old(v)@, *old(fp))) {
            (Ok(()), Ok((sv, sf))) => final(v)@ == sv && *final(fp) == sf,
            (Err(m), Err(sm)) => m@ == sm,
            _ => false,
        },
{
    let l = parse_i64(&slice(s, 0, dot));
    let r = parse_i64(&slice(s, dot + 2, s.len()));
    assert(s@.take(dot as int) =~= s@.subrange(0, dot as int));
    assert(s@.skip(dot + 2) =~= s@.subrange(dot + 2, s@.len() as int));
    match (l, r) {
        (Some(l), Some(r)) => {
            if remove {
                v.del_int_range((l, r));
            } else {
                v.join_int_range((l, r));
            }
            Ok(())
        },
        _ => Err(lit("the border of NumberRange must be a number")),
    }
}

fn float_material(
    s: &Vec<char>,
    dot: usize,
    col: usize,
    remove: bool,
    v: &mut Variable,
    fp: &mut i128,
) -> (res: Result<(), Vec<char>>)
    requires
        find(s@, ".."@) == Some(dot as int),
        find(s@, ":."@) == Some(col as int),
        dot + 2 <= s.len(),
        col + 2 <= s.len(),
    ensures
        match (res, float_step(s@, remove, old(v)@, *old(fp))) {
            (Ok(()), Ok((sv, sf))) => final(v)@ == sv && *final(fp) == sf,
            (Err(m), Err(sm)) => m@ == sm,
            _ => false,
        },
{
    if col < dot + 2 || col + 2 > s.len() - 1 {
        return Err(lit("Invalid Sytanx"));
    }
    let low = slice(s, 0, dot);
    let high = slice(s, dot + 2, col);
    assert(s@.take(dot as int) =~= low@);
    if !is_float_text(&low) || !is_float_text(&high) {
        return Err(lit("the border of NumberRange must be a number"));
    }
    match parse_i128(&slice(s, col + 2, s.len() - 1)) {
        None => Err(lit("the precision of NumberRange must be positive integer")),
        Some(p) => {
            if *fp != -1 && p != *fp {
                return Err(lit("float precision in one variable must be the same"));
            }
            v.push_float_material(string_of(&low), string_of(&high), remove);
            *fp = p;
            Ok(())
        },
    }
}

fn str_material(s: &Vec<char>, remove: bool, v: &mut Variable)
    ensures
        final(v)@ == (VariableView { str_set: str_fold(old(v)@.str_set, s@, remove), ..old(v)@ }),
{
    let n = s.len();
    assert(s@.take(0) =~= Seq::<char>::empty());
    for i in 0..n
        invariant
            n == s.len(),
            v@ == (VariableView { str_set: str_fold(old(v)@.str_set, s@.take(i as int), remove), ..old(v)@ }),
    {
        assert(s@.take(i + 1).drop_last() =~= s@.take(i as int));
        if remove {
            v.del_str_set(s[i]);
        } else {
            v.join_str_set(s[i]);
        }
    }
    assert(s@.take(n as int) =~= s@);
}

/// One material with its type.
fn apply_one(m: &Attribute, t: &Attribute, v: &mut Variable, fp: &mut i128) -> (res: Result<
    (),
    Vec<char>,
>)
    ensures
        match (res, apply_material(m@, t@, old(v)@, *old(fp))) {
            (Ok(()), Ok((sv, sf))) => final(v)@ == sv && *final(fp) == sf,
            (Err(msg), Err(sm)) => msg@ == sm,
            _ => false,
        },
{
    let (text, remove) = match material_text_of(m) {
        Some(x) => x,
        None => {
            return Err(lit("Internal CompilerError"));
        },
    };
    let s = trim_chars(&text);
    proof {
        reveal_strlit("..");
        reveal_strlit(":.");
    }
    let dot = find_chars(&s, &lit(".."));
    let col = find_chars(&s, &lit(":."));
    match t {
        Attribute::Type(n) => {
            let nc = chars_of(n.as_str());
            if crate::text::is_lit(&nc, "ANY") {
                match (dot, col) {
                    (Some(d), Some(c)) => float_material(&s, d, c, remove, v, fp),
                    (Some(d), None) => int_material(&s, d, remove, v, fp),
                    _ => {
                        str_material(&text, remove, v);
                        Ok(())
                    },
                }
            } else if crate::text::is_lit(&nc, "int") {
                match dot {
                    None => Err(lit("IntRange syntax mismatched (Tips: [L..R])")),
                    Some(d) => int_material(&s, d, remove, v, fp),
                }
            } else if crate::text::is_lit(&nc, "float") {
                match (dot, col) {
                    (Some(d), Some(c)) => float_material(&s, d, c, remove, v, fp),
                    _ => Err(lit("FloatRange syntax mismatched (Tips: [L..R]:.[N]f)")),
                }
            } else if crate::text::is_lit(&nc, "string") {
                str_material(&text, remove, v);
                Ok(())
            } else {
                Ok(())
            }
        },
        _ => Ok(()),
    }
}

pub open spec fn pair_views(p: Seq<(usize, usize)>) -> Seq<(int, int)> {
    p.map_values(|x: (usize, usize)| (x.0 as int, x.1 as int))
}

/// The outermost pairs of brackets of a line, or where its first `)`
/// without a `(` is.
fn scan_brackets(line: &Vec<char>) -> (res: Result<Vec<(usize, usize)>, usize>)
    ensures
        match res {
            Ok(p) => scan(line@).unpaired is None && scan(line@).pairs == pair_views(p@),
            Err(w) => scan(line@).unpaired == Some(w as int),
        },
{
    let mut pairs: Vec<(usize, usize)> = Vec::new();
    let mut depth: usize = 0;
    let mut open: usize = 0;
    let n = line.len();
    assert(line@.take(0) =~= Seq::<char>::empty());
    for word_id in 0..n
        invariant
            n == line@.len(),
            scan(line@.take(word_id as int)).unpaired is None,
            scan(line@.take(word_id as int)).depth == depth,
            scan(line@.take(word_id as int)).open == open,
            scan(line@.take(word_id as int)).pairs == pair_views(pairs@),
            depth <= word_id,
    {
        let ghost st = scan(line@.take(word_id as int));
        assert(line@.take(word_id + 1).drop_last() =~= line@.take(word_id as int));
        assert(line@.take(word_id + 1).last() == line@[word_id as int]);
        let c = line[word_id];
        if c == '(' {
            if depth == 0 {
                open = word_id;
            }
            depth += 1;
        } else if c == ')' {
            if depth == 0 {
                proof {
                    lemma_scan_unpaired_stays(line@, word_id as int + 1);
                }
                return Err(word_id);
            } else if depth == 1 {
                pairs.push((open, word_id));
                assert(pair_views(pairs@) =~= st.pairs.push((open as int, word_id as int)));
            }
            depth -= 1;
        }
    }
    assert(line@.take(n as int) =~= line@);
    Ok(pairs)
}

/// The outermost pairs of a scan are in order, inside the line, and have no
/// bracket of theirs outside them.
pub open spec fn scan_wf(line: Seq<char>, pairs: Seq<(int, int)>) -> bool {
    &&& forall|k: int| 0 <= k < pairs.len() ==> 0 <= (#[trigger] pairs[k]).0 < pairs[k].1 < line.len()
    &&& forall|k: int| 0 < k < pairs.len() ==> (#[trigger] pairs[k]).0 > pairs[k - 1].1
}

proof fn lemma_scan_wf(line: Seq<char>)
    ensures
        scan_wf(line, scan(line).pairs),
        scan(line).depth >= 0,
        scan(line).depth > 0 ==> 0 <= scan(line).open < line.len(),
        scan(line).depth > 0 && scan(line).pairs.len() > 0 ==> scan(line).open
            > scan(line).pairs.last().1,
    decreases line.len(),
{
    if line.len() > 0 {
        lemma_scan_wf(line.drop_last());
        let s = scan(line.drop_last());
        let i = line.len() - 1;
        if s.pairs.len() > 0 {
            assert(s.pairs[s.pairs.len() - 1].1 < i);
        }
        if s.unpaired is None && line.last() == ')' && s.depth == 1 {
            let t = scan(line);
            assert(t.pairs == s.pairs.push((s.open, i)));
            assert forall|k: int| 0 < k < t.pairs.len() implies (#[trigger] t.pairs[k]).0 > t.pairs[k
                - 1].1 by {
                if k < t.pairs.len() - 1 {
                    assert(s.pairs[k] == t.pairs[k]);
                    assert(s.pairs[k - 1] == t.pairs[k - 1]);
                }
            }
            assert forall|k: int| 0 <= k < t.pairs.len() implies 0 <= (#[trigger] t.pairs[k]).0
                < t.pairs[k].1 < line.len() by {
                if k < t.pairs.len() - 1 {
                    assert(s.pairs[k] == t.pairs[k]);
                }
            }
        }
    }
}

proof fn lemma_scan_unpaired_stays(line: Seq<char>, i: int)
    requires
        0 <= i <= line.len(),
        scan(line.take(i)).unpaired is Some,
    ensures
        scan(line).unpaired == scan(line.take(i)).unpaired,
    decreases line.len() - i,
{
    if i < line.len() {
        assert(line.take(i + 1).drop_last() =~= line.take(i));
        lemma_scan_unpaired_stays(line, i + 1);
    } else {
        assert(line.take(i) =~= line);
    }
}

proof fn lemma_field_start_prefix(f: Seq<Seq<char>>, g: Seq<Seq<char>>, k: int)
    requires
        0 <= k <= f.len(),
        k <= g.len(),
        forall|j: int| 0 <= j < k ==> f[j] == g[j],
    ensures
        field_start(f, k) == field_start(g, k),
    decreases k,
{
    if k > 0 {
        lemma_field_start_prefix(f, g, k - 1);
    }
}

proof fn lemma_field_start_mono(f: Seq<Seq<char>>, j: int, k: int)
    requires
        0 <= j <= k,
    ensures
        field_start(f, j) <= field_start(f, k),
    decreases k - j,
{
    if j < k {
        lemma_field_start_mono(f, j, k - 1);
    }
}

/// The pieces of a split and their separators make up the whole text.
proof fn lemma_split_total(s: Seq<char>, c: char)
    ensures
        field_start(split(s, c), split(s, c).len() as int) == s.len() + 2,
    decreases s.len(),
{
    lemma_split_len(s, c);
    if s.len() > 0 {
        let p = split(s.drop_last(), c);
        lemma_split_total(s.drop_last(), c);
        lemma_split_len(s.drop_last(), c);
        let n = p.len() as int;
        if s.last() == c {
            let q = p.push(Seq::<char>::empty());
            assert(split(s, c) == q);
            lemma_field_start_prefix(q, p, n);
            assert(field_start(q, n + 1) == field_start(q, n) + 1);
        } else {
            let q = p.update(n - 1, p.last().push(s.last()));
            assert(split(s, c) == q);
            lemma_field_start_prefix(q, p, n - 1);
            assert(field_start(q, n) == field_start(q, n - 1) + q[n - 1].len() + 1);
            assert(field_start(p, n) == field_start(p, n - 1) + p[n - 1].len() + 1);
        }
    } else {
        assert(split(s, c) == seq![Seq::<char>::empty()]);
        assert(field_start(split(s, c), 1) == field_start(split(s, c), 0) + 1);
    }
}

proof fn lemma_split_len(s: Seq<char>, c: char)
    ensures
        split(s, c).len() >= 1,
    decreases s.len(),
{
    if s.len() > 0 {
        lemma_split_len(s.drop_last(), c);
    }
}

proof fn lemma_parse_lines_err(lines: Seq<Seq<char>>, k: int, n: int, file: Seq<char>)
    requires
        0 <= k <= n,
        parse_lines(lines, k, file) is Err,
    ensures
        parse_lines(lines, n, file) == parse_lines(lines, k, file),
    decreases n - k,
{
    if k < n {
        lemma_parse_lines_err(lines, k + 1, n, file);
    }
}

proof fn lemma_pair_tokens_err(
    line: Seq<char>,
    pairs: Seq<(int, int)>,
    k: int,
    n: int,
    file: Seq<char>,
    line_id: usize,
)
    requires
        0 <= k <= n,
        pair_tokens(line, pairs, k, file, line_id) is Err,
    ensures
        pair_tokens(line, pairs, n, file, line_id) == pair_tokens(line, pairs, k, file, line_id),
    decreases n - k,
{
    if k < n {
        lemma_pair_tokens_err(line, pairs, k + 1, n, file, line_id);
    }
}

proof fn lemma_types_of_none(pieces: Seq<Seq<char>>, k: int)
    requires
        0 <= k <= pieces.len(),
        types_of(pieces.take(k)) is None,
    ensures
        types_of(pieces) is None,
    decreases pieces.len() - k,
{
    if k < pieces.len() {
        assert(pieces.take(k + 1).drop_last() =~= pieces.take(k));
        lemma_types_of_none(pieces, k + 1);
    } else {
        assert(pieces.take(k) =~= pieces);
    }
}

proof fn lemma_apply_all_err(
    mats: Seq<AttrView>,
    types: Seq<AttrView>,
    k: int,
    n: int,
    base: VariableView,
)
    requires
        0 <= k <= n,
        apply_all(mats, types, k, base) is Err,
    ensures
        apply_all(mats, types, n, base) == apply_all(mats, types, k, base),
    decreases n - k,
{
    if k < n {
        lemma_apply_all_err(mats, types, k + 1, n, base);
    }
}

/// A float material written with `\\` in front is recorded as taken out of
/// the variable, and one written without it as added: the float material
/// that a material adds to a variable is marked removed exactly when its
/// text starts with `\\`.
pub proof fn law_float_material_except(x: Seq<char>, t: AttrView, v: VariableView, fp: i128)
    requires
        apply_material(AttrView::Uncertain(x), t, v, fp) is Ok,
        apply_material(AttrView::Uncertain(x), t, v, fp)->Ok_0.0.float_materials.len()
            > v.float_materials.len(),
    ensures
        apply_material(AttrView::Uncertain(x), t, v, fp)->Ok_0.0.float_materials.len()
            == v.float_materials.len() + 1,
        apply_material(AttrView::Uncertain(x), t, v, fp)->Ok_0.0.float_materials.last().remove
            == (x.len() > 0 && x[0] == '\\'),
{
}

} // verus!
