//! The virtual machine that runs TD assembly: `REP n` .. `CREP` repeats the
//! commands between them `n` times, `OUT` writes a word or what an `RD`
//! command gives.
use vstd::prelude::*;
use crate::buffer_reader::{BufferReader, read_next, read_value, text_result, value_result, convert_msg};
use crate::error::RuntimeError;
use crate::number::float_text;
use crate::random::{Gener, Materials, gener_materials, item_count, item_fits, items_drawable, pool_of};
use crate::fixed::{digits_of, digits_of_text, scaled, scaled_value};
use crate::td_assembly::{AssemblyTable, get_assembly_sytanx_hashmap, is_assembly_command};
use crate::text::{
    chars_of, extend, is_lit, lemma_replace_free, lemma_space_word, lemma_word_chars_plain,
    lemma_words_chars_front, lit, matches_at, plain_word, replace, replace_chars, string_of, word_chars,
    words_chars,
};

verus! {

/// What an `RD` command writes: its quantity, its end char, and what its
/// data is drawn from.
pub struct RdData {
    pub quantity: u64,
    pub end_char: Seq<char>,
    pub materials: Materials,
}

/// A piece of what the machine wrote: a word of `OUT`, or the data of an
/// `RD`.
pub enum Piece {
    Text(Seq<char>),
    Data(RdData),
}

/// The state of the machine: the tokens of the program, the index of the
/// next one, the open repetitions (where each starts and how many times it
/// is still to run), and the pieces written.
pub struct VmState {
    pub tokens: Seq<Seq<char>>,
    pub ptr: usize,
    pub stack: Seq<(usize, u64)>,
    pub out: Seq<Piece>,
}

/// The items joined by the end char: `a`, `e`, `b`, `e`, .. `z`.
pub open spec fn join_items(items: Seq<Seq<char>>, end_char: Seq<char>) -> Seq<char>
    decreases items.len(),
{
    if items.len() == 0 {
        seq![]
    } else if items.len() == 1 {
        items[0]
    } else {
        join_items(items.drop_last(), end_char) + end_char + items.last()
    }
}

/// Whether `text` is what the piece can write: the word itself; or, for the
/// data of an `RD`, `item_count` items, each an integer of the integer
/// ranges, a decimal of the float ranges or a character of the set, joined by
/// the end char.
pub open spec fn renders(p: Piece, text: Seq<char>) -> bool {
    match p {
        Piece::Text(s) => text == s,
        Piece::Data(d) => exists|items: Seq<Vec<char>>| #[trigger] drawn_as(d, items, text),
    }
}

proof fn lemma_concat_all_add(x: Seq<Seq<char>>, y: Seq<Seq<char>>)
    ensures
        concat_all(x + y) == concat_all(x) + concat_all(y),
    decreases y.len(),
{
    if y.len() == 0 {
        assert(x + y =~= x);
        assert(concat_all(x) + concat_all(y) =~= concat_all(x));
    } else {
        lemma_concat_all_add(x, y.drop_last());
        assert((x + y).drop_last() =~= x + y.drop_last());
        assert((x + y).last() == y.last());
        assert(concat_all(x) + concat_all(y.drop_last()) + y.last() =~= concat_all(x) + (
        concat_all(y.drop_last()) + y.last()));
    }
}

/// A machine keeps what it wrote.
proof fn lemma_keeps_refl(a: VirtualMachine)
    ensures
        a.keeps(a),
{
    assert(a.written().take(a.written().len() as int) =~= a.written());
    assert(a.written().skip(a.written().len() as int) =~= Seq::<Seq<char>>::empty());
    assert(a.text() + Seq::<char>::empty() =~= a.text());
}

/// Keeping what was written carries over two stretches of work.
proof fn lemma_keeps_trans(a: VirtualMachine, b: VirtualMachine, c: VirtualMachine)
    requires
        b.keeps(a),
        c.keeps(b),
    ensures
        c.keeps(a),
{
    let ka = a.written().len() as int;
    let kb = b.written().len() as int;
    let w = c.written();
    assert(w.take(ka) =~= w.take(kb).take(ka));
    assert(w.skip(ka) =~= b.written().skip(ka) + w.skip(kb)) by {
        assert(w.take(kb) == b.written());
    }
    lemma_concat_all_add(b.written().skip(ka), w.skip(kb));
    assert(a.text() + concat_all(b.written().skip(ka)) + concat_all(w.skip(kb)) =~= a.text()
        + concat_all(w.skip(ka)));
}

/// What a run wrote after the text it found is a text of its new pieces.
proof fn lemma_new_text(a: VirtualMachine, b: VirtualMachine)
    requires
        a.wf(),
        b.wf(),
        b.keeps(a),
    ensures
        b.text().take(a.text().len() as int) == a.text(),
        renders_all(b.state().out.skip(a.state().out.len() as int), b.text().skip(
            a.text().len() as int,
        )),
{
    let k = a.written().len() as int;
    let parts = b.written().skip(k);
    let pieces = b.state().out.skip(k);
    assert(b.text().take(a.text().len() as int) =~= a.text());
    assert(b.text().skip(a.text().len() as int) =~= concat_all(parts));
    assert forall|i: int| 0 <= i < parts.len() implies renders(#[trigger] pieces[i], parts[i]) by {
        assert(pieces[i] == b.pieces@[k + i]);
        assert(parts[i] == b.parts@[k + i]);
    }
    assert(parts.len() == pieces.len());
}

proof fn lemma_renders_data(d: RdData, items: Seq<Vec<char>>, text: Seq<char>)
    requires
        drawn_as(d, items, text),
    ensures
        renders(Piece::Data(d), text),
{
    let p = Piece::Data(d);
    assert(p is Data);
    assert(p->Data_0 == d);
}

/// Whether `text` is the data of `d` made of `items`: as many as
/// `item_count`, taken from a pool of the shares of integers, floats and
/// characters drawn from the materials, joined by the end char.
pub open spec fn drawn_as(d: RdData, items: Seq<Vec<char>>, text: Seq<char>) -> bool {
    &&& items.len() == item_count(d.quantity, d.materials)
    &&& forall|i: int| 0 <= i < items.len() ==> item_fits(#[trigger] items[i]@, d.materials)
    &&& exists|pool: Seq<Vec<char>>|
        #[trigger] pool_of(pool, d.quantity, d.materials) && items.to_multiset().subset_of(
            pool.to_multiset(),
        )
    &&& text == join_items(items.map_values(|v: Vec<char>| v@), d.end_char)
}

/// The texts one after the other.
pub open spec fn concat_all(parts: Seq<Seq<char>>) -> Seq<char>
    decreases parts.len(),
{
    if parts.len() == 0 {
        seq![]
    } else {
        concat_all(parts.drop_last()) + parts.last()
    }
}

/// Whether `text` is what the pieces can write, one after the other.
pub open spec fn renders_all(pieces: Seq<Piece>, text: Seq<char>) -> bool {
    exists|parts: Seq<Seq<char>>|
        #![trigger concat_all(parts)]
        parts.len() == pieces.len() && (forall|i: int|
            0 <= i < parts.len() ==> renders(#[trigger] pieces[i], parts[i])) && text
            == concat_all(parts)
}

/// A word of `OUT`, `EC`: the words `SPACE` and `NEWLINE` stand for a space
/// and a newline.
pub open spec fn decode_word(t: Seq<char>) -> Seq<char> {
    replace(replace(t, "SPACE"@, " "@), "NEWLINE"@, "\n"@)
}

/// A word of `RDS`: the word `SPACE` stands for a space.
pub open spec fn decode_chars(t: Seq<char>) -> Seq<char> {
    replace(t, "SPACE"@, " "@)
}

/// The pieces `e` written `n` times.
pub open spec fn repeat(e: Seq<Piece>, n: nat) -> Seq<Piece>
    decreases n,
{
    if n == 0 {
        seq![]
    } else {
        repeat(e, (n - 1) as nat) + e
    }
}

pub open spec fn st_read(st: VmState) -> (VmState, Result<Seq<char>, Seq<char>>) {
    let (p, r) = read_next(st.tokens, st.ptr);
    (VmState { ptr: p, ..st }, r)
}

pub open spec fn st_read_u64(st: VmState) -> (VmState, Result<u64, Seq<char>>) {
    let (p, r) = read_value::<u64>(st.tokens, st.ptr);
    (VmState { ptr: p, ..st }, r)
}

pub open spec fn st_read_i64(st: VmState) -> (VmState, Result<i64, Seq<char>>) {
    let (p, r) = read_value::<i64>(st.tokens, st.ptr);
    (VmState { ptr: p, ..st }, r)
}

/// The two integer arguments of `RDI`.
pub open spec fn st_rdi(st: VmState) -> (VmState, Result<(i64, i64), Seq<char>>) {
    let (s2, a) = st_read_i64(st);
    match a {
        Err(e) => (s2, Err(e)),
        Ok(l) => {
            let (s3, b) = st_read_i64(s2);
            match b {
                Err(e) => (s3, Err(e)),
                Ok(r) => (s3, Ok((l, r))),
            }
        },
    }
}

/// Reading a float argument: a token that `str::parse::<f64>` accepts.
pub open spec fn st_read_float(st: VmState) -> (VmState, Option<Seq<char>>) {
    let (s1, r) = st_read(st);
    match r {
        Err(e) => (s1, Some(e)),
        Ok(t) => if float_text(t) {
            (s1, None)
        } else {
            (s1, Some(convert_msg()))
        },
    }
}

/// What a read leaves as it was, and how far it moves.
pub open spec fn moves_on(a: VmState, b: VmState) -> bool {
    &&& b.tokens == a.tokens
    &&& b.stack == a.stack
    &&& b.out == a.out
    &&& b.ptr >= a.ptr
}

proof fn lemma_read_ptr(st: VmState)
    ensures
        moves_on(st, st_read(st).0),
        st_read(st).1 is Ok ==> st.ptr < st.tokens.len() && st_read(st).0.ptr == st.ptr + 1,
        moves_on(st, st_read_u64(st).0),
        st_read_u64(st).1 is Ok ==> st.ptr < st.tokens.len() && st_read_u64(st).0.ptr == st.ptr + 1,
        moves_on(st, st_read_i64(st).0),
        st_read_i64(st).1 is Ok ==> st.ptr < st.tokens.len() && st_read_i64(st).0.ptr == st.ptr + 1,
        moves_on(st, st_read_float(st).0),
        st_read_float(st).1 is None ==> st.ptr < st.tokens.len() && st_read_float(st).0.ptr == st.ptr + 1,
        st_read(st).0.ptr <= st.tokens.len() || st_read(st).0.ptr == st.ptr,
{
}

proof fn lemma_rdi_ptr(st: VmState)
    ensures
        moves_on(st, st_rdi(st).0),
        st_rdi(st).1 is Ok ==> st_rdi(st).0.ptr == st.ptr + 2 && st_rdi(st).0.ptr <= st.tokens.len(),
{
    lemma_read_ptr(st);
    lemma_read_ptr(st_read_i64(st).0);
}

/// The characters of an `RDS` command, up to `CRDS`.
pub open spec fn rds_loop(st: VmState, acc: Seq<char>) -> (VmState, Result<Seq<char>, Seq<char>>)
    decreases st.tokens.len() - st.ptr,
{
    let (s1, r) = st_read(st);
    match r {
        Err(e) => (s1, Err(e)),
        Ok(t) => if t == "CRDS"@ {
            (s1, Ok(acc))
        } else if s1.ptr > st.ptr && s1.ptr <= s1.tokens.len() && s1.tokens == st.tokens {
            rds_loop(s1, acc + decode_chars(t))
        } else {
            (s1, Ok(acc))
        },
    }
}

proof fn lemma_rds_ptr(st: VmState, acc: Seq<char>)
    ensures
        moves_on(st, rds_loop(st, acc).0),
        rds_loop(st, acc).1 is Ok ==> rds_loop(st, acc).0.ptr > st.ptr && rds_loop(st, acc).0.ptr
            <= st.tokens.len(),
    decreases st.tokens.len() - st.ptr,
{
    let (s1, r) = st_read(st);
    lemma_read_ptr(st);
    if let Ok(t) = r {
        if t != "CRDS"@ && s1.ptr > st.ptr && s1.ptr <= s1.tokens.len() && s1.tokens == st.tokens {
            lemma_rds_ptr(s1, acc + decode_chars(t));
        }
    }
}

/// The arguments of an `RD` command, up to `CRD`: `RDI l r`, `RDF l r p` and
/// `RDS .. CRDS` commands; the ranges of `RDI`, the texts of `RDF` and the
/// characters of `RDS` join `ints`, `floats` and `chars`.
pub open spec fn rd_args(
    st: VmState,
    ints: Seq<(i64, i64)>,
    floats: Seq<(Seq<char>, Seq<char>, Seq<char>)>,
    chars: Seq<char>,
) -> (VmState, Result<(Seq<(i64, i64)>, Seq<(Seq<char>, Seq<char>, Seq<char>)>, Seq<char>), Seq<char>>)
    decreases st.tokens.len() - st.ptr,
{
    let (s1, r) = st_read(st);
    match r {
        Err(e) => (s1, Err(e)),
        Ok(sub) => if sub == "CRD"@ {
            (s1, Ok((ints, floats, chars)))
        } else if sub == "RDI"@ {
            let (s3, a) = st_rdi(s1);
            match a {
                Err(e) => (s3, Err(e)),
                Ok(range) => if s3.ptr > st.ptr && s3.ptr <= s3.tokens.len() && s3.tokens
                    == st.tokens {
                    rd_args(s3, ints.push(range), floats, chars)
                } else {
                    (s3, Ok((ints.push(range), floats, chars)))
                },
            }
        } else if sub == "RDF"@ {
            let (s2, a) = st_read_float(s1);
            match a {
                Some(e) => (s2, Err(e)),
                None => {
                    let (s3, b) = st_read_float(s2);
                    match b {
                        Some(e) => (s3, Err(e)),
                        None => {
                            let (s4, c) = st_read_float(s3);
                            match c {
                                Some(e) => (s4, Err(e)),
                                None => {
                                    let f = (
                                        s1.tokens[s1.ptr as int],
                                        s2.tokens[s2.ptr as int],
                                        s3.tokens[s3.ptr as int],
                                    );
                                    if s4.ptr > st.ptr && s4.ptr <= s4.tokens.len() && s4.tokens
                                        == st.tokens {
                                        rd_args(s4, ints, floats.push(f), chars)
                                    } else {
                                        (s4, Ok((ints, floats.push(f), chars)))
                                    }
                                },
                            }
                        },
                    }
                },
            }
        } else if sub == "RDS"@ {
            let (s2, r) = rds_loop(s1, seq![]);
            match r {
                Err(e) => (s2, Err(e)),
                Ok(text) => if s2.ptr > st.ptr && s2.ptr <= s2.tokens.len() && s2.tokens
                    == st.tokens {
                    rd_args(s2, ints, floats, chars + text)
                } else {
                    (s2, Ok((ints, floats, chars + text)))
                },
            }
        } else {
            (s1, Err("Internal RuntimeError: unexpected cmd "@ + sub))
        },
    }
}

/// The number of decimals of the float data: that of the step of the last
/// `RDF`, none without one.
pub open spec fn float_digits(fl: Seq<(Seq<char>, Seq<char>, Seq<char>)>) -> nat {
    if fl.len() == 0 {
        0
    } else {
        digits_of(fl.last().2)
    }
}

/// The float ranges as counts of `10^-d`; `None` when `d` is above 18 or a
/// border is no plain decimal that fits.
pub open spec fn fixed_ranges(fl: Seq<(Seq<char>, Seq<char>, Seq<char>)>, d: nat) -> Option<
    Seq<(i64, i64)>,
>
    decreases fl.len(),
{
    if d > 18 {
        None
    } else if fl.len() == 0 {
        Some(seq![])
    } else {
        match (fixed_ranges(fl.drop_last(), d), scaled(fl.last().0, d), scaled(fl.last().1, d)) {
            (Some(rs), Some(lo), Some(hi)) => Some(rs.push((lo, hi))),
            _ => None,
        }
    }
}

/// The message of an `RD` whose data cannot be drawn.
pub open spec fn gen_error_msg() -> Seq<char> {
    "Internal RuntimeError: occured when generating datas"@
}

/// An `RD` command: `QU q`, `EC e`, its arguments up to `CRD`; it writes
/// data drawn from the integer ranges, float ranges and characters of its
/// arguments, with `e` between two pieces of data.
pub open spec fn cmd_rd(st: VmState) -> (VmState, Result<RdData, Seq<char>>) {
    let (s1, r) = st_read(st);
    match r {
        Err(e) => (s1, Err(e)),
        Ok(t) => if t != "QU"@ {
            (s1, Err("Internal RuntimeError: didn't find QU cmd after RD cmd"@))
        } else {
            let (s2, q) = st_read_u64(s1);
            match q {
                Err(e) => (s2, Err(e)),
                Ok(q) => {
                    let (s3, r3) = st_read(s2);
                    match r3 {
                        Err(e) => (s3, Err(e)),
                        Ok(t3) => if t3 != "EC"@ {
                            (s3, Err("Internal RuntimeError: didn't find EC cmd after RD cmd"@))
                        } else {
                            let (s4, r4) = st_read(s3);
                            match r4 {
                                Err(e) => (s4, Err(e)),
                                Ok(ec) => {
                                    let (s5, r5) = rd_args(s4, seq![], seq![], seq![]);
                                    match r5 {
                                        Err(e) => (s5, Err(e)),
                                        Ok((ints, fl, chars)) => {
                                            let d = float_digits(fl);
                                            match fixed_ranges(fl, d) {
                                                None => (s5, Err(gen_error_msg())),
                                                Some(fr) => {
                                                    let m = Materials {
                                                        ints,
                                                        floats: fr,
                                                        digits: d,
                                                        chars,
                                                    };
                                                    if items_drawable(q, m) {
                                                        (
                                                            s5,
                                                            Ok(
                                                                RdData {
                                                                    quantity: q,
                                                                    end_char: decode_word(ec),
                                                                    materials: m,
                                                                },
                                                            ),
                                                        )
                                                    } else {
                                                        (s5, Err(gen_error_msg()))
                                                    }
                                                },
                                            }
                                        },
                                    }
                                },
                            }
                        },
                    }
                },
            }
        },
    }
}

/// An `OUT` command: it writes a word, or what the `RD` command after it gives.
pub open spec fn cmd_out(st: VmState) -> (VmState, Option<Seq<char>>) {
    let (s1, r) = st_read(st);
    match r {
        Err(e) => (s1, Some(e)),
        Ok(t) => if is_assembly_command(t) {
            if t != "RD"@ {
                (s1, Some("Internal RuntimeError: In cmd_out()"@))
            } else {
                let (s2, d) = cmd_rd(s1);
                match d {
                    Err(e) => (s2, Some(e)),
                    Ok(data) => (VmState { out: s2.out.push(Piece::Data(data)), ..s2 }, None),
                }
            }
        } else {
            (VmState { out: s1.out.push(Piece::Text(decode_word(t))), ..s1 }, None)
        },
    }
}

/// A `REP n` command: a repetition opens where the command after it starts,
/// and that command must be an `OUT`.
pub open spec fn cmd_rep(st: VmState) -> (VmState, Option<Seq<char>>) {
    let (s1, r) = st_read_u64(st);
    match r {
        Err(e) => (s1, Some(e)),
        Ok(times) => {
            let s2 = VmState { stack: s1.stack.push((s1.ptr, times)), ..s1 };
            let (s3, r3) = st_read(s2);
            match r3 {
                Err(e) => (s3, Some(e)),
                Ok(t) => if t != "OUT"@ {
                    (s3, Some("all the generated data must be exported to designated file"@))
                } else {
                    cmd_out(s3)
                },
            }
        },
    }
}

/// A `CREP` command: the innermost repetition runs again from its start while
/// it has more than one time left, and closes otherwise.
pub open spec fn cmd_crep(st: VmState) -> (VmState, Option<Seq<char>>) {
    if st.stack.len() == 0 {
        (st, Some("Internal RuntimeError: CREP without REP"@))
    } else {
        let (start, count) = st.stack.last();
        if count > 1 {
            (
                VmState {
                    stack: st.stack.drop_last().push((start, (count - 1) as u64)),
                    ptr: start,
                    ..st
                },
                None,
            )
        } else {
            (VmState { stack: st.stack.drop_last(), ..st }, None)
        }
    }
}

/// The start of a program: `REP` and its command.
pub open spec fn vm_main(st: VmState) -> (VmState, Option<Seq<char>>) {
    let (s1, r) = st_read(st);
    match r {
        Err(e) => (s1, Some(e)),
        Ok(t) => if t != "REP"@ {
            (s1, Some("the beginning of the program must be (BEGIN)"@))
        } else {
            cmd_rep(s1)
        },
    }
}

pub open spec fn step_limit_msg() -> Seq<char> {
    "Internal RuntimeError: the program runs too long"@
}

/// One command: `REP`, `OUT` or `CREP`.
pub open spec fn vm_step(st: VmState) -> (VmState, Option<Seq<char>>) {
    let (s1, r) = st_read(st);
    match r {
        Err(e) => (s1, Some(e)),
        Ok(c) => if c == "REP"@ {
            cmd_rep(s1)
        } else if c == "OUT"@ {
            cmd_out(s1)
        } else if c == "CREP"@ {
            cmd_crep(s1)
        } else {
            (s1, Some("Internal RuntimeError: unexpected cmd "@ + c))
        },
    }
}

/// The commands from the current one to the end of the program, at most
/// `fuel` of them.
pub open spec fn vm_run(st: VmState, fuel: nat) -> (VmState, Option<Seq<char>>)
    decreases fuel,
{
    if st.ptr >= st.tokens.len() {
        (st, None)
    } else if fuel == 0 {
        (st, Some(step_limit_msg()))
    } else {
        let (s2, r2) = vm_step(st);
        match r2 {
            Some(e) => (s2, Some(e)),
            None => vm_run(s2, (fuel - 1) as nat),
        }
    }
}

/// A whole program: its start, then every command to its end.
pub open spec fn vm_exec(st: VmState) -> (VmState, Option<Seq<char>>) {
    let (s1, r) = vm_main(st);
    match r {
        Some(e) => (s1, Some(e)),
        None => vm_run(s1, u64::MAX as nat),
    }
}

/// The arguments of an `RD` read by the machine, as plain values.
pub open spec fn args_result(
    r: Result<(Vec<(i64, i64)>, Vec<(Vec<char>, Vec<char>, Vec<char>)>, Vec<char>), RuntimeError>,
) -> Result<(Seq<(i64, i64)>, Seq<(Seq<char>, Seq<char>, Seq<char>)>, Seq<char>), Seq<char>> {
    match r {
        Ok((a, f, b)) => Ok((a@, float_views(f@), b@)),
        Err(e) => Err(e@),
    }
}

/// The texts of `RDF` arguments, as plain values.
pub open spec fn float_views(f: Seq<(Vec<char>, Vec<char>, Vec<char>)>) -> Seq<
    (Seq<char>, Seq<char>, Seq<char>),
> {
    f.map_values(|x: (Vec<char>, Vec<char>, Vec<char>)| (x.0@, x.1@, x.2@))
}

/// The state of a fresh machine for the program `source`.
pub open spec fn initial_state(source: Seq<char>) -> VmState {
    VmState {
        tokens: crate::buffer_reader::tokens_of(source),
        ptr: 0,
        stack: seq![],
        out: seq![],
    }
}

pub open spec fn unit_result(r: Result<(), RuntimeError>) -> Option<Seq<char>> {
    match r {
        Ok(()) => None,
        Err(e) => Some(e@),
    }
}

/// The virtual machine.
pub struct VirtualMachine {
    buffer_reader: BufferReader,
    repeat_stack: Vec<(usize, u64)>,
    stdout: String,
    asm_table: AssemblyTable,
    pieces: Ghost<Seq<Piece>>,
    parts: Ghost<Seq<Seq<char>>>,
}

impl VirtualMachine {
    /// The table of commands is whole, and what was written is the text of
    /// the pieces written, one after the other.
    pub closed spec fn wf(&self) -> bool {
        &&& self.asm_table.wf()
        &&& self.parts@.len() == self.pieces@.len()
        &&& forall|i: int|
            0 <= i < self.parts@.len() ==> renders(#[trigger] self.pieces@[i], self.parts@[i])
        &&& self.stdout@ == concat_all(self.parts@)
    }

    /// What the machine wrote.
    pub closed spec fn text(&self) -> Seq<char> {
        self.stdout@
    }

    /// The texts of the pieces written, one per piece.
    pub closed spec fn written(&self) -> Seq<Seq<char>> {
        self.parts@
    }

    /// Whether the machine kept the texts written by `before`, and wrote
    /// after them the texts of its new pieces.
    pub open spec fn keeps(&self, before: VirtualMachine) -> bool {
        &&& before.written().len() <= self.written().len()
        &&& self.written().take(before.written().len() as int) == before.written()
        &&& self.text() == before.text() + concat_all(
            self.written().skip(before.written().len() as int),
        )
    }

    /// Whether the machine wrote nothing since `before`.
    pub open spec fn same_text(&self, before: VirtualMachine) -> bool {
        &&& self.written() == before.written()
        &&& self.text() == before.text()
    }

    pub closed spec fn state(&self) -> VmState {
        VmState {
            tokens: self.buffer_reader.tokens(),
            ptr: self.buffer_reader.pointer(),
            stack: self.repeat_stack@,
            out: self.pieces@,
        }
    }

    /// A machine for the program `source`.
    pub fn new(source: String) -> (res: Self)
        ensures
            res.wf(),
            res.state() == initial_state(source@),
    {
        let buffer_reader = BufferReader::new(source);
        let repeat_stack: Vec<(usize, u64)> = Vec::new();
        let stdout = String::new();
        let asm_table = get_assembly_sytanx_hashmap();
        let vm = VirtualMachine {
            buffer_reader,
            repeat_stack,
            stdout,
            asm_table,
            pieces: Ghost(Seq::empty()),
            parts: Ghost(Seq::empty()),
        };
        assert(vm.stdout@ =~= concat_all(Seq::<Seq<char>>::empty()));
        vm
    }

    /// What the program wrote: a text of the pieces it wrote.
    pub fn stdout(&self) -> (r: &String)
        requires
            self.wf(),
        ensures
            r@ == self.text(),
            renders_all(self.state().out, r@),
    {
        assert(self.parts@.len() == self.state().out.len());
        &self.stdout
    }

    /// Writes `text`, the text of the piece `p`.
    fn write(&mut self, text: &Vec<char>, p: Ghost<Piece>)
        requires
            old(self).wf(),
            renders(p@, text@),
        ensures
            final(self).wf(),
            final(self).written() == old(self).written().push(text@),
            final(self).text() == old(self).text() + text@,
            final(self).keeps(*old(self)),
            final(self).state() == (VmState { out: old(self).state().out.push(p@), ..old(self).state() }),
    {
        let t = string_of(text);
        self.stdout.append(t.as_str());
        proof {
            let parts = self.parts@.push(text@);
            assert(parts.drop_last() =~= self.parts@);
            self.parts = Ghost(parts);
            self.pieces = Ghost(self.pieces@.push(p@));
            let w = self.parts@;
            let k = old(self).parts@.len();
            assert(w.take(k as int) =~= old(self).parts@);
            assert(w.skip(k as int) =~= seq![text@]);
            assert(seq![text@].drop_last() =~= Seq::<Seq<char>>::empty());
            assert(concat_all(Seq::<Seq<char>>::empty()) =~= Seq::<char>::empty());
            assert(concat_all(seq![text@]) =~= text@);
        }
    }

    fn read(&mut self) -> (r: Result<String, RuntimeError>)
        requires
            old(self).wf(),
        ensures
            final(self).wf(),
            final(self).same_text(*old(self)),
            final(self).keeps(*old(self)),
            (final(self).state(), text_result(r)) == st_read(old(self).state()),
    {
        let r = self.buffer_reader.read_cmd();
        proof {
            lemma_keeps_refl(*self);
        }
        r
    }

    fn read_u64(&mut self) -> (r: Result<u64, RuntimeError>)
        requires
            old(self).wf(),
        ensures
            final(self).wf(),
            final(self).same_text(*old(self)),
            final(self).keeps(*old(self)),
            (final(self).state(), value_result(r)) == st_read_u64(old(self).state()),
    {
        let r = self.buffer_reader.read_arg::<u64>();
        proof {
            lemma_keeps_refl(*self);
        }
        r
    }

    fn read_i64(&mut self) -> (r: Result<i64, RuntimeError>)
        requires
            old(self).wf(),
        ensures
            final(self).wf(),
            final(self).same_text(*old(self)),
            final(self).keeps(*old(self)),
            (final(self).state(), value_result(r)) == st_read_i64(old(self).state()),
    {
        let r = self.buffer_reader.read_arg::<i64>();
        proof {
            lemma_keeps_refl(*self);
        }
        r
    }

    fn read_float(&mut self) -> (r: Result<Vec<char>, RuntimeError>)
        requires
            old(self).wf(),
        ensures
            final(self).wf(),
            final(self).same_text(*old(self)),
            final(self).state() == st_read_float(old(self).state()).0,
            match r {
                Ok(t) => st_read_float(old(self).state()).1 is None && t@ == old(
                    self,
                ).state().tokens[old(self).state().ptr as int],
                Err(e) => st_read_float(old(self).state()).1 == Some(e@),
            },
    {
        let t = self.read()?;
        let c = chars_of(t.as_str());
        if crate::number::is_float_text(&c) {
            Ok(c)
        } else {
            Err(RuntimeError::new("Internal RuntimeError: cannot convert this token to type T"))
        }
    }

    fn cmd_rdi(&mut self) -> (r: Result<(i64, i64), RuntimeError>)
        requires
            old(self).wf(),
        ensures
            final(self).wf(),
            final(self).same_text(*old(self)),
            (final(self).state(), value_result(r)) == st_rdi(old(self).state()),
    {
        let l = self.read_i64()?;
        let r = self.read_i64()?;
        Ok((l, r))
    }

    fn cmd_rdf(&mut self) -> (r: Result<(Vec<char>, Vec<char>, Vec<char>), RuntimeError>)
        requires
            old(self).wf(),
        ensures
            final(self).wf(),
            final(self).same_text(*old(self)),
            ({
                let s1 = old(self).state();
                let (s2, a) = st_read_float(s1);
                match a {
                    Some(e) => final(self).state() == s2 && r is Err && r->Err_0@ == e,
                    None => {
                        let (s3, b) = st_read_float(s2);
                        match b {
                            Some(e) => final(self).state() == s3 && r is Err && r->Err_0@ == e,
                            None => {
                                let (s4, c) = st_read_float(s3);
                                final(self).state() == s4 && match c {
                                    Some(e) => r is Err && r->Err_0@ == e,
                                    None => r is Ok && r->Ok_0.0@ == s1.tokens[s1.ptr as int]
                                        && r->Ok_0.1@ == s2.tokens[s2.ptr as int] && r->Ok_0.2@
                                        == s3.tokens[s3.ptr as int],
                                }
                            },
                        }
                    },
                }
            }),
    {
        let a = self.read_float()?;
        let b = self.read_float()?;
        let c = self.read_float()?;
        Ok((a, b, c))
    }

    fn cmd_rds(&mut self) -> (r: Result<String, RuntimeError>)
        requires
            old(self).wf(),
        ensures
            final(self).wf(),
            final(self).same_text(*old(self)),
            (final(self).state(), text_result(r)) == rds_loop(old(self).state(), seq![]),
    {
        let mut res: Vec<char> = Vec::new();
        proof {
            reveal_strlit("SPACE");
            reveal_strlit(" ");
        }
        loop
            invariant
                self.wf(),
                self.same_text(*old(self)),
                rds_loop(old(self).state(), seq![]) == rds_loop(self.state(), res@),
            decreases self.state().tokens.len() - self.state().ptr,
        {
            let ghost before = self.state();
            proof {
                lemma_read_ptr(before);
                reveal_strlit("SPACE");
                reveal_strlit(" ");
            }
            let token = self.read()?;
            let t = chars_of(token.as_str());
            if is_lit(&t, "CRDS") {
                return Ok(string_of(&res));
            }
            let d = replace_chars(&t, &lit("SPACE"), &lit(" "));
            extend(&mut res, &d);
        }
    }

    fn cmd_qu(&mut self) -> (r: Result<u64, RuntimeError>)
        requires
            old(self).wf(),
        ensures
            final(self).wf(),
            final(self).same_text(*old(self)),
            (final(self).state(), value_result(r)) == st_read_u64(old(self).state()),
    {
        let quantity: u64 = self.read_u64()?;
        Ok(quantity)
    }

    fn cmd_ec(&mut self) -> (r: Result<String, RuntimeError>)
        requires
            old(self).wf(),
        ensures
            final(self).wf(),
            final(self).same_text(*old(self)),
            final(self).state() == st_read(old(self).state()).0,
            text_result(r) == (match st_read(old(self).state()).1 {
                Ok(t) => Ok(decode_word(t)),
                Err(e) => Err::<Seq<char>, Seq<char>>(e),
            }),
    {
        let token = self.read()?;
        let t = chars_of(token.as_str());
        Ok(string_of(&decode(&t)))
    }

    fn rd_args(&mut self) -> (r: Result<
        (Vec<(i64, i64)>, Vec<(Vec<char>, Vec<char>, Vec<char>)>, Vec<char>),
        RuntimeError,
    >)
        requires
            old(self).wf(),
        ensures
            final(self).wf(),
            final(self).same_text(*old(self)),
            (final(self).state(), args_result(r)) == rd_args(
                old(self).state(),
                seq![],
                seq![],
                seq![],
            ),
    {
        let mut ints: Vec<(i64, i64)> = Vec::new();
        let mut floats: Vec<(Vec<char>, Vec<char>, Vec<char>)> = Vec::new();
        let mut chars: Vec<char> = Vec::new();
        assert(float_views(floats@) =~= Seq::<(Seq<char>, Seq<char>, Seq<char>)>::empty());
        loop
            invariant
                self.wf(),
                self.same_text(*old(self)),
                rd_args(old(self).state(), seq![], seq![], seq![]) == rd_args(
                    self.state(),
                    ints@,
                    float_views(floats@),
                    chars@,
                ),
            decreases self.state().tokens.len() - self.state().ptr,
        {
            let ghost st = self.state();
            proof {
                lemma_read_ptr(st);
                lemma_rdi_ptr(st_read(st).0);
                lemma_read_ptr(st_read(st).0);
                lemma_read_ptr(st_read_float(st_read(st).0).0);
                lemma_read_ptr(st_read_float(st_read_float(st_read(st).0).0).0);
                lemma_rds_ptr(st_read(st).0, seq![]);
                lemma_read_ptr(st_read_i64(st_read(st).0).0);
            }
            let sub = self.read()?;
            let s = chars_of(sub.as_str());
            if is_lit(&s, "CRD") {
                return Ok((ints, floats, chars));
            } else if is_lit(&s, "RDI") {
                let ghost s1 = self.state();
                let range = self.cmd_rdi()?;
                ints.push(range);
                proof {
                    lemma_read_ptr(st);
                    assert(self.state().ptr > st.ptr);
                }
            } else if is_lit(&s, "RDF") {
                let f = self.cmd_rdf()?;
                let ghost before = floats@;
                floats.push(f);
                assert(float_views(floats@) =~= float_views(before).push((f.0@, f.1@, f.2@)));
                assert(self.state().ptr > st.ptr);
            } else if is_lit(&s, "RDS") {
                let ghost s1 = self.state();
                proof {
                    lemma_rds_ptr(s1, seq![]);
                }
                let text = self.cmd_rds()?;
                let tv = chars_of(text.as_str());
                extend(&mut chars, &tv);
                assert(self.state().ptr > st.ptr);
            } else {
                let mut m = lit("Internal RuntimeError: unexpected cmd ");
                extend(&mut m, &s);
                return Err(RuntimeError::from_chars(&m));
            }
        }
    }

    fn cmd_rd(&mut self) -> (r: Result<Vec<char>, RuntimeError>)
        requires
            old(self).wf(),
        ensures
            final(self).wf(),
            final(self).same_text(*old(self)),
            final(self).state() == cmd_rd(old(self).state()).0,
            match cmd_rd(old(self).state()).1 {
                Ok(d) => r is Ok && renders(Piece::Data(d), r->Ok_0@),
                Err(m) => r is Err && r->Err_0@ == m,
            },
    {
        let sub_cmd = self.read()?;
        if !is_lit(&chars_of(sub_cmd.as_str()), "QU") {
            return Err(RuntimeError::new("Internal RuntimeError: didn't find QU cmd after RD cmd"));
        }
        let quantity = self.cmd_qu()?;
        let sub_cmd = self.read()?;
        if !is_lit(&chars_of(sub_cmd.as_str()), "EC") {
            return Err(RuntimeError::new("Internal RuntimeError: didn't find EC cmd after RD cmd"));
        }
        let end_char = self.cmd_ec()?;
        let (ints, floats, chars) = self.rd_args()?;
        let e = chars_of(end_char.as_str());
        let gen_error = "Internal RuntimeError: occured when generating datas";
        let d: u64 = if floats.len() == 0 {
            0
        } else {
            digits_of_text(&floats[floats.len() - 1].2)
        };
        let ghost fl = float_views(floats@);
        assert(d == float_digits(fl));
        let fr = match fixed_ranges_of(&floats, d) {
            Some(fr) => fr,
            None => {
                return Err(RuntimeError::new(gen_error));
            },
        };
        let dd = d as u32;
        let ghost m = Materials { ints: ints@, floats: fr@, digits: d as nat, chars: chars@ };
        let mut g = Gener::new(quantity);
        let _ = g.gen_i(&ints);
        let _ = g.gen_f(&fr, dd);
        let _ = g.gen_s(&chars);
        assert(gener_materials(g@) == m);
        if !g.res() {
            return Err(RuntimeError::new(gen_error));
        }
        match g.items() {
            None => Err(RuntimeError::new(gen_error)),
            Some(items) => {
                let text = join_texts(&items, &e);
                let ghost iv = items@.map_values(|v: Vec<char>| v@);
                assert(iv.len() == item_count(quantity, m));
                assert forall|i: int| 0 <= i < iv.len() implies item_fits(#[trigger] iv[i], m) by {
                    assert(iv[i] == items@[i]@);
                }
                assert(text@ == join_items(iv, e@));
                let ghost d = cmd_rd(old(self).state()).1->Ok_0;
                assert(cmd_rd(old(self).state()).1 is Ok);
                assert(d.end_char == e@ && d.materials == m && d.quantity == quantity);
                proof {
                    lemma_renders_data(d, items@, text@);
                }
                Ok(text)
            },
        }
    }

    fn cmd_out(&mut self) -> (r: Result<(), RuntimeError>)
        requires
            old(self).wf(),
        ensures
            final(self).wf(),
            final(self).keeps(*old(self)),
            r is Ok ==> final(self).written().len() == old(self).written().len() + 1,
            r is Ok ==> final(self).text() == old(self).text() + final(self).written().last(),
            r is Ok ==> renders(final(self).state().out.last(), final(self).written().last()),
            r is Err ==> final(self).same_text(*old(self)),
            (final(self).state(), unit_result(r)) == cmd_out(old(self).state()),
    {
        let next_token = self.read()?;
        let t = chars_of(next_token.as_str());
        if self.asm_table.contains_key(&t) {
            if !is_lit(&t, "RD") {
                return Err(RuntimeError::new("Internal RuntimeError: In cmd_out()"));
            }
            let ghost st1 = self.state();
            let text = self.cmd_rd()?;
            self.write(&text, Ghost(Piece::Data(cmd_rd(st1).1->Ok_0)));
        } else {
            let d = decode(&t);
            self.write(&d, Ghost(Piece::Text(d@)));
        }
        Ok(())
    }

    fn cmd_rep(&mut self) -> (r: Result<(), RuntimeError>)
        requires
            old(self).wf(),
        ensures
            final(self).wf(),
            final(self).keeps(*old(self)),
            r is Ok ==> final(self).written().len() == old(self).written().len() + 1,
            r is Ok ==> final(self).text() == old(self).text() + final(self).written().last(),
            r is Ok ==> renders(final(self).state().out.last(), final(self).written().last()),
            r is Err ==> final(self).same_text(*old(self)),
            (final(self).state(), unit_result(r)) == cmd_rep(old(self).state()),
    {
        let times: u64 = self.read_u64()?;
        let start = self.buffer_reader.get_reader_index();
        self.repeat_stack.push((start, times));
        let next_cmd = self.read()?;
        if !is_lit(&chars_of(next_cmd.as_str()), "OUT") {
            return Err(RuntimeError::new("all the generated data must be exported to designated file"));
        }
        let ghost mid = *self;
        let r = self.cmd_out();
        proof {
            lemma_keeps_trans(*old(self), mid, *self);
        }
        r
    }

    fn cmd_crep(&mut self) -> (r: Result<(), RuntimeError>)
        requires
            old(self).wf(),
        ensures
            final(self).wf(),
            final(self).same_text(*old(self)),
            (final(self).state(), unit_result(r)) == cmd_crep(old(self).state()),
    {
        match self.repeat_stack.pop() {
            None => Err(RuntimeError::new("Internal RuntimeError: CREP without REP")),
            Some((start, count)) => {
                if count > 1 {
                    self.repeat_stack.push((start, count - 1));
                    self.buffer_reader.move_reader(start);
                }
                Ok(())
            },
        }
    }

    /// The start of the program: `REP` and its command.
    pub fn main(&mut self) -> (r: Result<(), RuntimeError>)
        requires
            old(self).wf(),
        ensures
            final(self).wf(),
            final(self).keeps(*old(self)),
            (final(self).state(), unit_result(r)) == vm_main(old(self).state()),
    {
        let cmd = self.read()?;
        if !is_lit(&chars_of(cmd.as_str()), "REP") {
            return Err(RuntimeError::new("the beginning of the program must be (BEGIN)"));
        }
        let ghost mid = *self;
        let r = self.cmd_rep();
        proof {
            lemma_keeps_trans(*old(self), mid, *self);
        }
        r
    }

    /// One command.
    fn step(&mut self) -> (r: Result<(), RuntimeError>)
        requires
            old(self).wf(),
        ensures
            final(self).wf(),
            final(self).keeps(*old(self)),
            (final(self).state(), unit_result(r)) == vm_step(old(self).state()),
    {
        let cmd = self.read()?;
        let c = chars_of(cmd.as_str());
        let ghost mid = *self;
        if is_lit(&c, "REP") {
            let r = self.cmd_rep();
            proof {
                lemma_keeps_trans(*old(self), mid, *self);
            }
            r
        } else if is_lit(&c, "OUT") {
            let r = self.cmd_out();
            proof {
                lemma_keeps_trans(*old(self), mid, *self);
            }
            r
        } else if is_lit(&c, "CREP") {
            self.cmd_crep()
        } else {
            let mut m = lit("Internal RuntimeError: unexpected cmd ");
            extend(&mut m, &c);
            Err(RuntimeError::from_chars(&m))
        }
    }

    /// Runs the whole program.
    pub fn exec(&mut self) -> (r: Result<(), RuntimeError>)
        requires
            old(self).wf(),
        ensures
            final(self).wf(),
            final(self).keeps(*old(self)),
            final(self).text().take(old(self).text().len() as int) == old(self).text(),
            renders_all(
                final(self).state().out.skip(old(self).state().out.len() as int),
                final(self).text().skip(old(self).text().len() as int),
            ),
            (final(self).state(), unit_result(r)) == vm_exec(old(self).state()),
    {
        let r = self.run_all();
        proof {
            lemma_new_text(*old(self), *self);
        }
        r
    }

    fn run_all(&mut self) -> (r: Result<(), RuntimeError>)
        requires
            old(self).wf(),
        ensures
            final(self).wf(),
            final(self).keeps(*old(self)),
            (final(self).state(), unit_result(r)) == vm_exec(old(self).state()),
    {
        self.main()?;
        let mut fuel: u64 = u64::MAX;
        assert(vm_exec(old(self).state()) == vm_run(self.state(), u64::MAX as nat));
        loop
            invariant
                self.wf(),
                self.keeps(*old(self)),
                vm_exec(old(self).state()) == vm_run(self.state(), fuel as nat),
            decreases fuel,
        {
            if self.buffer_reader.get_reader_index() >= self.buffer_reader.len() {
                return Ok(());
            }
            if fuel == 0 {
                return Err(RuntimeError::new("Internal RuntimeError: the program runs too long"));
            }
            let ghost mid = *self;
            let r = self.step();
            proof {
                lemma_keeps_trans(*old(self), mid, *self);
            }
            r?;
            fuel -= 1;
        }
    }
}

/// `fixed_ranges`: the float ranges as counts of `10^-d`.
fn fixed_ranges_of(fl: &Vec<(Vec<char>, Vec<char>, Vec<char>)>, d: u64) -> (r: Option<
    Vec<(i64, i64)>,
>)
    ensures
        match r {
            Some(v) => fixed_ranges(float_views(fl@), d as nat) == Some(v@) && d <= 18,
            None => fixed_ranges(float_views(fl@), d as nat) is None,
        },
{
    let ghost fv = float_views(fl@);
    if d > 18 {
        return None;
    }
    let mut res: Vec<(i64, i64)> = Vec::new();
    let n = fl.len();
    assert(fv.take(0) =~= Seq::<(Seq<char>, Seq<char>, Seq<char>)>::empty());
    for k in 0..n
        invariant
            n == fl@.len(),
            d <= 18,
            fv == float_views(fl@),
            fixed_ranges(fv.take(k as int), d as nat) == Some(res@),
    {
        assert(fv.take(k + 1).drop_last() =~= fv.take(k as int));
        assert(fv.take(k + 1).last() == (fl@[k as int].0@, fl@[k as int].1@, fl@[k as int].2@));
        let lo = match scaled_value(&fl[k].0, d as u32) {
            Some(x) => x,
            None => {
                proof {
                    lemma_fixed_ranges_none(fv, d as nat, k + 1);
                }
                return None;
            },
        };
        let hi = match scaled_value(&fl[k].1, d as u32) {
            Some(x) => x,
            None => {
                proof {
                    lemma_fixed_ranges_none(fv, d as nat, k + 1);
                }
                return None;
            },
        };
        res.push((lo, hi));
    }
    assert(fv.take(n as int) =~= fv);
    Some(res)
}

proof fn lemma_fixed_ranges_none(fl: Seq<(Seq<char>, Seq<char>, Seq<char>)>, d: nat, k: int)
    requires
        0 <= k <= fl.len(),
        fixed_ranges(fl.take(k), d) is None,
    ensures
        fixed_ranges(fl, d) is None,
    decreases fl.len() - k,
{
    if k < fl.len() {
        assert(fl.take(k + 1).drop_last() =~= fl.take(k));
        lemma_fixed_ranges_none(fl, d, k + 1);
    } else {
        assert(fl.take(k) =~= fl);
    }
}

/// The items joined by the end char.
fn join_texts(items: &Vec<Vec<char>>, end_char: &Vec<char>) -> (r: Vec<char>)
    ensures
        r@ == join_items(items@.map_values(|v: Vec<char>| v@), end_char@),
{
    let ghost iv = items@.map_values(|v: Vec<char>| v@);
    let mut res: Vec<char> = Vec::new();
    let n = items.len();
    assert(iv.take(0) =~= Seq::<Seq<char>>::empty());
    for j in 0..n
        invariant
            n == items@.len(),
            iv == items@.map_values(|v: Vec<char>| v@),
            res@ == join_items(iv.take(j as int), end_char@),
    {
        assert(iv.take(j + 1).drop_last() =~= iv.take(j as int));
        assert(iv.take(j + 1).last() == items@[j as int]@);
        if j > 0 {
            extend(&mut res, end_char);
        } else {
            assert(iv.take(1) =~= seq![iv[0]]);
            assert(res@ + items@[0]@ =~= items@[0]@);
        }
        extend(&mut res, &items[j]);
    }
    assert(iv.take(n as int) =~= iv);
    res
}

fn decode(t: &Vec<char>) -> (r: Vec<char>)
    ensures
        r@ == decode_word(t@),
{
    proof {
        reveal_strlit("SPACE");
        reveal_strlit("NEWLINE");
    }
    let a = replace_chars(t, &lit("SPACE"), &lit(" "));
    replace_chars(&a, &lit("NEWLINE"), &lit("\n"))
}

/// The tokens `OUT w` for each word `w` of `ws`, in order.
pub open spec fn out_tokens(ws: Seq<Seq<char>>) -> Seq<Seq<char>>
    decreases ws.len(),
{
    if ws.len() == 0 {
        seq![]
    } else {
        seq!["OUT"@, ws[0]] + out_tokens(ws.drop_first())
    }
}

/// What the words of `ws` write, in order.
pub open spec fn out_words(ws: Seq<Seq<char>>) -> Seq<Piece>
    decreases ws.len(),
{
    if ws.len() == 0 {
        seq![]
    } else {
        seq![Piece::Text(decode_word(ws[0]))] + out_words(ws.drop_first())
    }
}

/// The machine for the program `REP n`, `OUT w` for each word `w` of `ws`,
/// `CREP`.
pub open spec fn repeat_program(n: u64, ws: Seq<Seq<char>>) -> VmState {
    VmState {
        tokens: seq!["REP"@, crate::number::decimal(n as nat)] + out_tokens(ws) + seq!["CREP"@],
        ptr: 0,
        stack: seq![],
        out: seq![],
    }
}

proof fn lemma_repeat_front(e: Seq<Piece>, n: nat)
    requires
        n >= 1,
    ensures
        repeat(e, n) == e + repeat(e, (n - 1) as nat),
    decreases n,
{
    if n > 1 {
        lemma_repeat_front(e, (n - 1) as nat);
        assert(repeat(e, n) == repeat(e, (n - 1) as nat) + e);
        assert(e + repeat(e, (n - 2) as nat) + e =~= e + (repeat(e, (n - 2) as nat) + e));
    } else {
        assert(repeat(e, 0) =~= Seq::<Piece>::empty());
        assert(repeat(e, 1) =~= Seq::<Piece>::empty() + e);
    }
}

proof fn lemma_literals()
    ensures
        "REP"@ != "OUT"@,
        "CREP"@ != "REP"@,
        "CREP"@ != "OUT"@,
        "OUT"@ != "CREP"@,
        "OUT"@ != "RD"@,
        is_assembly_command("OUT"@),
        is_assembly_command("CREP"@),
{
    reveal_strlit("REP");
    reveal_strlit("OUT");
    reveal_strlit("CREP");
    reveal_strlit("RD");
    assert("REP"@[0] != "OUT"@[0]);
    assert("CREP"@.len() != "REP"@.len());
    assert("CREP"@.len() != "OUT"@.len());
    assert("OUT"@.len() != "RD"@.len());
    assert(crate::td_assembly::assembly_commands()[10] == "OUT"@);
    assert(crate::td_assembly::assembly_commands()[1] == "CREP"@);
}

/// The tokens of `t` at `p + 2 * i` are `OUT w`.
pub open spec fn out_at(t: Seq<Seq<char>>, p: int, i: int, w: Seq<char>) -> bool {
    t[p + 2 * i] == "OUT"@ && t[p + 2 * i + 1] == w
}

/// The words `ws` stand as `OUT w` commands in `t` from `p` on.
pub open spec fn outs_at(t: Seq<Seq<char>>, p: int, ws: Seq<Seq<char>>) -> bool {
    forall|i: int| 0 <= i < ws.len() ==> out_at(t, p, i, #[trigger] ws[i])
}

proof fn lemma_out_tokens(ws: Seq<Seq<char>>)
    ensures
        out_tokens(ws).len() == 2 * ws.len(),
        outs_at(out_tokens(ws), 0, ws),
    decreases ws.len(),
{
    if ws.len() > 0 {
        let rest = ws.drop_first();
        lemma_out_tokens(rest);
        let t = out_tokens(ws);
        assert(t == seq!["OUT"@, ws[0]] + out_tokens(rest));
        assert(outs_at(t, 0, ws)) by {
            assert forall|i: int| 0 <= i < ws.len() implies out_at(t, 0, i, #[trigger] ws[i]) by {
                if i > 0 {
                    assert(rest[i - 1] == ws[i]);
                    assert(out_at(out_tokens(rest), 0, i - 1, rest[i - 1]));
                    assert(t[2 * i] == out_tokens(rest)[0 + 2 * (i - 1)]);
                    assert(t[2 * i + 1] == out_tokens(rest)[0 + 2 * (i - 1) + 1]);
                }
            }
        }
    }
}

/// The program's words stand as `OUT w` commands from index 2 on.
proof fn lemma_program_outs(n: u64, ws: Seq<Seq<char>>)
    ensures
        repeat_program(n, ws).tokens.len() == 2 * ws.len() + 3,
        outs_at(repeat_program(n, ws).tokens, 2, ws),
        repeat_program(n, ws).tokens[2 * ws.len() as int + 2] == "CREP"@,
        repeat_program(n, ws).tokens[0] == "REP"@,
        repeat_program(n, ws).tokens[1] == crate::number::decimal(n as nat),
{
    lemma_out_tokens(ws);
    let t = repeat_program(n, ws).tokens;
    let head = seq!["REP"@, crate::number::decimal(n as nat)];
    assert(t == head + out_tokens(ws) + seq!["CREP"@]);
    assert(outs_at(t, 2, ws)) by {
        assert forall|i: int| 0 <= i < ws.len() implies out_at(t, 2, i, #[trigger] ws[i]) by {
            assert(out_at(out_tokens(ws), 0, i, ws[i]));
            assert(t[2 + 2 * i] == out_tokens(ws)[2 * i]);
            assert(t[2 + 2 * i + 1] == out_tokens(ws)[2 * i + 1]);
        }
    }
}

/// `OUT w` commands for the words `ws[j..]`, standing at `p` and on, write
/// those words, one command per step.
proof fn lemma_run_outs(st: VmState, p: int, ws: Seq<Seq<char>>, j: int, fuel: nat)
    requires
        0 <= j <= ws.len(),
        forall|i: int| 0 <= i < ws.len() ==> !is_assembly_command(#[trigger] ws[i]),
        outs_at(st.tokens, p, ws),
        0 <= p,
        p + 2 * ws.len() < st.tokens.len(),
        st.tokens.len() < usize::MAX,
        st.ptr == p + 2 * j,
        fuel >= ws.len() - j,
    ensures
        vm_run(st, fuel) == vm_run(
            VmState {
                ptr: (p + 2 * ws.len()) as usize,
                out: st.out + out_words(ws.skip(j)),
                ..st
            },
            (fuel - (ws.len() - j)) as nat,
        ),
    decreases ws.len() - j,
{
    lemma_literals();
    if j == ws.len() {
        assert(ws.skip(j) =~= Seq::<Seq<char>>::empty());
        assert(st.out + Seq::<Piece>::empty() =~= st.out);
    } else {
        let w = ws[j];
        assert(out_at(st.tokens, p, j, ws[j]));
        assert(st.tokens[p + 2 * j] == "OUT"@);
        assert(st.tokens[p + 2 * j + 1] == w);
        let s1 = st_read(st).0;
        assert(st_read(st).1 == Ok::<Seq<char>, Seq<char>>("OUT"@));
        let s2 = VmState { ptr: (st.ptr + 2) as usize, out: st.out.push(Piece::Text(decode_word(w))), ..st };
        assert(cmd_out(s1) == (s2, None::<Seq<char>>));
        assert(vm_step(st) == (s2, None::<Seq<char>>));
        assert(vm_run(st, fuel) == vm_run(s2, (fuel - 1) as nat));
        lemma_run_outs(s2, p, ws, j + 1, (fuel - 1) as nat);
        assert(ws.skip(j).drop_first() =~= ws.skip(j + 1));
        assert(ws.skip(j)[0] == w);
        assert(st.out.push(Piece::Text(decode_word(w))) + out_words(ws.skip(j + 1)) =~= st.out
            + out_words(ws.skip(j)));
    }
}

/// The repetition loop: standing at `CREP` with `k` times left, the rest of
/// the program writes the words `k - 1` more times and ends.
proof fn lemma_repeat_loop(n: u64, ws: Seq<Seq<char>>, k: u64, o: Seq<Piece>, fuel: nat)
    requires
        1 <= k,
        ws.len() >= 1,
        fuel >= (k - 1) * (ws.len() + 1) + 1,
        forall|i: int| 0 <= i < ws.len() ==> !is_assembly_command(#[trigger] ws[i]),
        2 * ws.len() + 3 < usize::MAX,
    ensures
        ({
            let st = VmState {
                ptr: (2 + 2 * ws.len()) as usize,
                stack: seq![(2usize, k)],
                out: o,
                ..repeat_program(n, ws)
            };
            let r = vm_run(st, fuel);
            r.1 is None && r.0.out == o + repeat(out_words(ws), (k - 1) as nat)
        }),
    decreases k,
{
    lemma_literals();
    lemma_out_tokens(ws);
    let m = ws.len();
    let c: int = 2 + 2 * m as int;
    let prog = repeat_program(n, ws);
    let t = prog.tokens;
    assert(t.len() == c + 1);
    assert(t[c] == "CREP"@);
    lemma_program_outs(n, ws);
    let st = VmState { ptr: c as usize, stack: seq![(2usize, k)], out: o, ..prog };
    let s1 = st_read(st).0;
    assert(st_read(st).1 == Ok::<Seq<char>, Seq<char>>("CREP"@));
    assert(ws.skip(0) =~= ws);
    if k > 1 {
        let s2 = VmState { stack: seq![(2usize, (k - 1) as u64)], ptr: 2, ..s1 };
        assert(s1.stack.drop_last().push((2usize, (k - 1) as u64)) =~= seq![(2usize, (k - 1) as u64)]);
        assert(cmd_crep(s1).0 == s2);
        assert(vm_step(st) == (s2, None::<Seq<char>>));
        assert(vm_run(st, fuel) == vm_run(s2, (fuel - 1) as nat));
        assert((k - 1) * (m + 1) == (k - 2) * (m + 1) + (m + 1)) by (nonlinear_arith);
        assert((k - 2) * (m + 1) >= 0) by (nonlinear_arith)
            requires
                k >= 2,
        ;
        lemma_run_outs(s2, 2, ws, 0, (fuel - 1) as nat);
        let o2 = o + out_words(ws);
        let s3 = VmState { ptr: c as usize, out: o2, ..s2 };
        lemma_repeat_loop(n, ws, (k - 1) as u64, o2, (fuel - 1 - m) as nat);
        assert(s3 == VmState {
            ptr: c as usize,
            stack: seq![(2usize, (k - 1) as u64)],
            out: o2,
            ..prog
        });
        lemma_repeat_front(out_words(ws), (k - 1) as nat);
        assert(o2 + repeat(out_words(ws), (k - 2) as nat) =~= o + repeat(
            out_words(ws),
            (k - 1) as nat,
        ));
    } else {
        let s2 = VmState { stack: seq![], ..s1 };
        assert(s1.stack.drop_last() =~= Seq::<(usize, u64)>::empty());
        assert(cmd_crep(s1).0 == s2);
        assert(vm_step(st) == (s2, None::<Seq<char>>));
        assert(vm_run(st, fuel) == vm_run(s2, (fuel - 1) as nat));
        assert(vm_run(s2, (fuel - 1) as nat) == (s2, None::<Seq<char>>));
        assert(repeat(out_words(ws), 0) =~= Seq::<Piece>::empty());
        assert(o + Seq::<Piece>::empty() =~= o);
    }
}

/// The program `REP n`, then `OUT w` for each word `w` of `ws`, then `CREP`
/// writes the words `n` times (`n` and the words at least one; the words
/// are no commands; a run of more than `u64::MAX` commands stops with an
/// error).
pub proof fn law_repeat(n: u64, ws: Seq<Seq<char>>)
    requires
        1 <= n,
        ws.len() >= 1,
        n * (ws.len() + 1) - 1 <= u64::MAX,
        forall|i: int| 0 <= i < ws.len() ==> !is_assembly_command(#[trigger] ws[i]),
        2 * ws.len() + 3 < usize::MAX,
    ensures
        vm_exec(repeat_program(n, ws)).1 is None,
        vm_exec(repeat_program(n, ws)).0.out == repeat(out_words(ws), n as nat),
{
    lemma_literals();
    lemma_out_tokens(ws);
    crate::number::law_decimal_parse(n);
    let m = ws.len();
    let c: int = 2 + 2 * m as int;
    let st = repeat_program(n, ws);
    let t = st.tokens;
    assert(t.len() == c + 1);
    lemma_program_outs(n, ws);
    assert(t[0] == "REP"@);
    assert(t[1] == crate::number::decimal(n as nat));
    let s1 = st_read(st).0;
    assert(st_read(st).1 == Ok::<Seq<char>, Seq<char>>("REP"@));
    let s2 = st_read_u64(s1).0;
    assert(st_read_u64(s1).1 == Ok::<u64, Seq<char>>(n));
    let s3 = VmState { stack: seq![(2usize, n)], ..s2 };
    assert(s3.ptr == 2);
    let s4 = st_read(s3).0;
    assert(st_read(s3).1 == Ok::<Seq<char>, Seq<char>>("OUT"@));
    let w0 = ws[0];
    assert(out_at(t, 2, 0, ws[0]));
    let s5 = VmState { ptr: 4, out: seq![Piece::Text(decode_word(w0))], ..s4 };
    assert(cmd_out(s4) == (s5, None::<Seq<char>>));
    assert(vm_main(st) == (s5, None::<Seq<char>>));
    assert(n * (m + 1) == (n - 1) * (m + 1) + (m + 1)) by (nonlinear_arith);
    lemma_run_outs(s5, 2, ws, 1, u64::MAX as nat);
    assert(seq![Piece::Text(decode_word(w0))] + out_words(ws.skip(1)) =~= out_words(ws)) by {
        assert(ws.drop_first() =~= ws.skip(1));
    }
    let f = (u64::MAX - (m - 1)) as nat;
    assert(f >= (n - 1) * (m + 1) + 1);
    lemma_repeat_loop(n, ws, n, out_words(ws), f);
    assert(VmState { ptr: c as usize, out: out_words(ws), ..s5 } == VmState {
        ptr: c as usize,
        stack: seq![(2usize, n)],
        out: out_words(ws),
        ..repeat_program(n, ws)
    });
    lemma_repeat_front(out_words(ws), n as nat);
}


/// `OUT t`: a word that is no command is written with `SPACE` and `NEWLINE`
/// read as a space and a newline; `RD` writes the data of the `RD` command
/// when it has no error; any other command is an error.
pub proof fn law_cmd_out(st: VmState)
    requires
        st.ptr < st.tokens.len(),
        st.ptr < usize::MAX,
    ensures
        ({
            let t = st.tokens[st.ptr as int];
            let s1 = VmState { ptr: (st.ptr + 1) as usize, ..st };
            &&& !is_assembly_command(t) ==> cmd_out(st) == (
                VmState { out: st.out.push(Piece::Text(decode_word(t))), ..s1 },
                None::<Seq<char>>,
            )
            &&& is_assembly_command(t) && t != "RD"@ ==> cmd_out(st) == (
                s1,
                Some("Internal RuntimeError: In cmd_out()"@),
            )
            &&& t == "RD"@ ==> match cmd_rd(s1) {
                (s2, Ok(d)) => cmd_out(st) == (
                    VmState { out: s2.out.push(Piece::Data(d)), ..s2 },
                    None::<Seq<char>>,
                ),
                (s2, Err(e)) => cmd_out(st) == (s2, Some(e)),
            }
        }),
{
    let t = st.tokens[st.ptr as int];
    if t == "RD"@ {
        assert(is_assembly_command(t)) by {
            reveal_strlit("RD");
            assert(crate::td_assembly::assembly_commands()[2] == "RD"@);
        }
    }
}

/// The fixed-point ranges of the `RDF l r p` commands of an `RD` at `d`
/// decimals are the pairs of their borders scaled to counts of `10^-d`, one
/// range per command and in order: the low end is the scaled low border and
/// the high end the scaled high border, so that every value of `[l, r]` at
/// step `10^-d` lies in its range. There are such ranges exactly when `d` is
/// at most 18 and every border scales.
pub proof fn law_fixed_ranges(fl: Seq<(Seq<char>, Seq<char>, Seq<char>)>, d: nat)
    ensures
        fixed_ranges(fl, d) is Some <==> d <= 18 && forall|i: int|
            0 <= i < fl.len() ==> scaled(#[trigger] fl[i].0, d) is Some && scaled(fl[i].1, d) is Some,
        fixed_ranges(fl, d) matches Some(rs) ==> rs.len() == fl.len() && forall|i: int|
            0 <= i < fl.len() ==> #[trigger] rs[i] == (scaled(fl[i].0, d)->0, scaled(fl[i].1, d)->0),
    decreases fl.len(),
{
    if d <= 18 && fl.len() > 0 {
        let pre = fl.drop_last();
        law_fixed_ranges(pre, d);
        let last = fl.len() - 1;
        assert(fl[last] == fl.last());
        assert forall|i: int| 0 <= i < last implies #[trigger] pre[i] == fl[i] by {}
        if fixed_ranges(fl, d) is Some {
            assert forall|i: int| 0 <= i < fl.len() implies scaled(#[trigger] fl[i].0, d) is Some
                && scaled(fl[i].1, d) is Some by {
                if i < last {
                    assert(pre[i] == fl[i]);
                }
            }
        } else {
            if forall|i: int|
                0 <= i < fl.len() ==> scaled(#[trigger] fl[i].0, d) is Some && scaled(fl[i].1, d) is Some {
                assert(scaled(fl[last].0, d) is Some && scaled(fl[last].1, d) is Some);
                assert forall|i: int| 0 <= i < pre.len() implies scaled(#[trigger] pre[i].0, d) is Some
                    && scaled(pre[i].1, d) is Some by {
                    assert(pre[i] == fl[i]);
                }
            }
        }
    }
}

proof fn lemma_decode_plain(w: Seq<char>)
    requires
        plain_word(w),
    ensures
        decode_chars(w) == word_chars(w),
{
    lemma_space_word();
    reveal_strlit(" ");
    if w == "SPACE"@ {
        assert(w.subrange(0, 5) =~= w);
        assert(matches_at(w, 0, "SPACE"@));
        assert(w.skip(5) =~= Seq::<char>::empty());
        assert(replace(Seq::<char>::empty(), "SPACE"@, " "@) == Seq::<char>::empty());
        assert(" "@ =~= seq![' ']);
        assert(decode_chars(w) == " "@ + replace(w.skip(5), "SPACE"@, " "@));
        assert(" "@ + Seq::<char>::empty() =~= seq![' ']);
    } else {
        lemma_replace_free(w, "SPACE"@, " "@);
        lemma_word_chars_plain(w);
    }
}

/// An `RDS` command gives the characters of its words up to `CRDS`, each
/// word `SPACE` read as one space and any other word as its own characters;
/// reading stops just after `CRDS`. This holds of words that are `SPACE` or
/// hold no `SPACE`.
pub proof fn law_rds_words(st: VmState, ws: Seq<Seq<char>>, acc: Seq<char>)
    requires
        st.ptr + ws.len() < st.tokens.len() < usize::MAX,
        forall|i: int| 0 <= i < ws.len() ==> st.tokens[st.ptr + i] == #[trigger] ws[i],
        st.tokens[st.ptr + ws.len()] == "CRDS"@,
        forall|i: int| 0 <= i < ws.len() ==> #[trigger] ws[i] != "CRDS"@ && plain_word(ws[i]),
    ensures
        rds_loop(st, acc) == (VmState { ptr: (st.ptr + ws.len() + 1) as usize, ..st }, Ok::<
            Seq<char>,
            Seq<char>,
        >(acc + words_chars(ws))),
    decreases ws.len(),
{
    let (s1, r) = st_read(st);
    if ws.len() == 0 {
        assert(acc + words_chars(ws) =~= acc);
    } else {
        let w = ws[0];
        assert(st.tokens[st.ptr + 0] == ws[0]);
        assert(r == Ok::<Seq<char>, Seq<char>>(w));
        let rest = ws.drop_first();
        assert forall|i: int| 0 <= i < rest.len() implies s1.tokens[s1.ptr + i] == #[trigger] rest[i] by {
            assert(rest[i] == ws[i + 1]);
        }
        assert forall|i: int| 0 <= i < rest.len() implies #[trigger] rest[i] != "CRDS"@ && plain_word(
            rest[i],
        ) by {
            assert(rest[i] == ws[i + 1]);
        }
        law_rds_words(s1, rest, acc + decode_chars(w));
        lemma_decode_plain(w);
        lemma_words_chars_front(ws);
        assert(acc + decode_chars(w) + words_chars(rest) =~= acc + words_chars(ws));
    }
}

} // verus!
