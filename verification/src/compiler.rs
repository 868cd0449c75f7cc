//! The compiler from the tokens of a script to TD assembly.
use vstd::prelude::*;
use crate::error::{CompilerError, CompilerErrorView, Location};
use crate::number::{decimal, decimal_i64, decimal_u64, signed_decimal};
use crate::parser::views;
use crate::td_assembly::{AssemblyTable, get_assembly_sytanx_hashmap, is_assembly_command};
use crate::text::{
    chars_of, extend, free_of, has_char, is_space, lemma_free_of_subrange, lemma_replace_last,
    lemma_replace_push1, lemma_space_word, lemma_trim_last, lemma_trim_words,
    lemma_word_chars_plain, lemma_words_chars_push_empty, lemma_words_push, lit, only_spaces,
    plain_word, replace, replace_chars, slice, string_of, trim, trim_chars, word_chars, words,
    words_chars,
};
use crate::variable::{Variable, VariableView};

verus! {

/// The text of a constant in TD assembly: spaces and newlines become the
/// words `SPACE` and `NEWLINE`.
pub open spec fn const_text(x: Seq<char>) -> Seq<char> {
    replace(trim(replace(replace(x, " "@, " SPACE "@), "\n"@, " NEWLINE "@)), "  "@, " "@)
}

/// An end character in TD assembly.
pub open spec fn end_char_text(e: Seq<char>) -> Seq<char> {
    replace(replace(e, " "@, "SPACE"@), "\n"@, "NEWLINE"@)
}

/// `RDI l r`.
pub open spec fn rdi_text(r: (i64, i64)) -> Seq<char> {
    "RDI "@ + signed_decimal(r.0 as int) + " "@ + signed_decimal(r.1 as int)
}

/// The `RDI` commands of the integer ranges, separated by spaces.
pub open spec fn int_text(ranges: Seq<(i64, i64)>) -> Seq<char>
    decreases ranges.len(),
{
    if ranges.len() == 0 {
        seq![]
    } else if ranges.len() == 1 {
        rdi_text(ranges[0])
    } else {
        int_text(ranges.drop_last()) + " "@ + rdi_text(ranges.last())
    }
}

/// The `RDS .. CRDS` command of a set of characters; nothing for an empty set.
pub open spec fn str_text(set: Seq<char>) -> Seq<char> {
    let t = trim(replace(set, " "@, " SPACE "@));
    if t.len() > 0 {
        "RDS "@ + t + " CRDS"@
    } else {
        seq![]
    }
}

/// The lines of TD assembly of one token; `floats` is the text of its
/// `RDF` commands. `None` for a tag that is neither `BEGIN` nor `END`.
pub open spec fn token_lines(v: VariableView, floats: Seq<char>) -> Option<Seq<Seq<char>>> {
    if v.constant {
        if v.tag >= 1 {
            if v.tag == 1 {
                Some(seq!["REP "@ + decimal(v.quantity as nat)])
            } else if v.tag == 2 {
                Some(seq!["CREP"@])
            } else {
                None
            }
        } else {
            let s = const_text(v.const_str);
            if is_assembly_command(s) {
                Some(seq!["OUT "@ + s.take(1), "OUT "@ + s.skip(1)])
            } else {
                Some(seq!["OUT "@ + s])
            }
        }
    } else {
        let out = trim(trim(int_text(v.int_ranges) + " "@ + floats) + " "@ + str_text(v.str_set));
        Some(
            seq![
                "OUT RD QU "@ + decimal(v.quantity as nat) + " EC "@ + end_char_text(v.end_char)
                    + " "@ + out + " CRD"@,
            ],
        )
    }
}

/// The `RDF` text of token `i`; empty when none is given.
pub open spec fn float_text_of(floats: Seq<Seq<char>>, i: int) -> Seq<char> {
    if 0 <= i < floats.len() {
        floats[i]
    } else {
        seq![]
    }
}

/// The lines of the first `k` tokens.
pub open spec fn program_lines(toks: Seq<VariableView>, floats: Seq<Seq<char>>, k: int) -> Option<
    Seq<Seq<char>>,
>
    decreases k,
{
    if k <= 0 {
        Some(seq![])
    } else {
        match program_lines(toks, floats, k - 1) {
            None => None,
            Some(ls) => match token_lines(toks[k - 1], float_text_of(floats, k - 1)) {
                None => None,
                Some(t) => Some(ls + t),
            },
        }
    }
}

/// Lines joined by newlines.
pub open spec fn join_lines(ls: Seq<Seq<char>>) -> Seq<char>
    decreases ls.len(),
{
    if ls.len() == 0 {
        seq![]
    } else if ls.len() == 1 {
        ls[0]
    } else {
        join_lines(ls.drop_last()) + "\n"@ + ls.last()
    }
}

/// The error of a token that the compiler cannot handle.
pub open spec fn internal_error() -> CompilerErrorView {
    CompilerErrorView { msg: "Internal CompilerError"@, file_name: "PLEASE REPORT"@, line_id: 0, word_id: 0 }
}

/// The TD assembly of the tokens.
pub open spec fn spec_compile(toks: Seq<VariableView>, floats: Seq<Seq<char>>) -> Result<
    Seq<char>,
    CompilerErrorView,
> {
    match program_lines(toks, floats, toks.len() as int) {
        None => Err(internal_error()),
        Some(ls) => Ok(join_lines(ls)),
    }
}

pub open spec fn string_views(v: Seq<String>) -> Seq<Seq<char>> {
    v.map_values(|s: String| s@)
}

/// The compiler of scripts to TD assembly.
pub struct Compiler {
    asm_sytanx_table: AssemblyTable,
}

fn rdi(r: (i64, i64)) -> (res: Vec<char>)
    ensures
        res@ == rdi_text(r),
{
    let mut v = lit("RDI ");
    extend(&mut v, &decimal_i64(r.0));
    extend(&mut v, &lit(" "));
    extend(&mut v, &decimal_i64(r.1));
    v
}

fn int_part(ranges: &Vec<(i64, i64)>) -> (res: Vec<char>)
    ensures
        res@ == int_text(ranges@),
{
    let mut out: Vec<char> = Vec::new();
    let n = ranges.len();
    assert(ranges@.take(0) =~= Seq::<(i64, i64)>::empty());
    for i in 0..n
        invariant
            n == ranges@.len(),
            out@ == int_text(ranges@.take(i as int)),
    {
        assert(ranges@.take(i + 1).drop_last() =~= ranges@.take(i as int));
        if i > 0 {
            extend(&mut out, &lit(" "));
        } else {
            assert(ranges@.take(1) =~= seq![ranges@[0]]);
        }
        extend(&mut out, &rdi(ranges[i]));
    }
    assert(ranges@.take(n as int) =~= ranges@);
    out
}

fn str_part(set: &String) -> (res: Vec<char>)
    ensures
        res@ == str_text(set@),
{
    let chars = chars_of(set.as_str());
    let sp = lit(" ");
    proof {
        reveal_strlit(" ");
    }
    let t = trim_chars(&replace_chars(&chars, &sp, &lit(" SPACE ")));
    if t.len() > 0 {
        let mut v = lit("RDS ");
        extend(&mut v, &t);
        extend(&mut v, &lit(" CRDS"));
        v
    } else {
        Vec::new()
    }
}

fn const_part(x: &String) -> (res: Vec<char>)
    ensures
        res@ == const_text(x@),
{
    proof {
        reveal_strlit(" ");
        reveal_strlit("\n");
        reveal_strlit("  ");
    }
    let c = chars_of(x.as_str());
    let a = replace_chars(&c, &lit(" "), &lit(" SPACE "));
    let b = replace_chars(&a, &lit("\n"), &lit(" NEWLINE "));
    let t = trim_chars(&b);
    replace_chars(&t, &lit("  "), &lit(" "))
}

fn end_char_part(e: &String) -> (res: Vec<char>)
    ensures
        res@ == end_char_text(e@),
{
    proof {
        reveal_strlit(" ");
        reveal_strlit("\n");
    }
    let c = chars_of(e.as_str());
    let a = replace_chars(&c, &lit(" "), &lit("SPACE"));
    replace_chars(&a, &lit("\n"), &lit("NEWLINE"))
}

impl Compiler {
    pub closed spec fn wf(&self) -> bool {
        self.asm_sytanx_table.wf()
    }

    pub fn new() -> (res: Self)
        ensures
            res.wf(),
    {
        let asm_sytanx_table = get_assembly_sytanx_hashmap();
        Compiler { asm_sytanx_table }
    }

    fn token_lines(&self, v: &Variable, floats: &Vec<char>) -> (res: Option<Vec<Vec<char>>>)
        requires
            self.wf(),
        ensures
            match res {
                Some(ls) => token_lines(v@, floats@) == Some(ls@.map_values(|l: Vec<char>| l@)),
                None => token_lines(v@, floats@) is None,
            },
    {
        let mut ls: Vec<Vec<char>> = Vec::new();
        if v.is_constant() {
            if v.is_tag() {
                if v.tag() == 1 {
                    let mut l = lit("REP ");
                    extend(&mut l, &decimal_u64(v.quantity()));
                    ls.push(l);
                } else if v.tag() == 2 {
                    ls.push(lit("CREP"));
                } else {
                    return None;
                }
            } else {
                let s = const_part(v.const_str());
                if self.asm_sytanx_table.contains_key(&s) {
                    assert(s@.len() > 0) by {
                        reveal_strlit("REP");
                        reveal_strlit("CREP");
                        reveal_strlit("RD");
                        reveal_strlit("QU");
                        reveal_strlit("EC");
                        reveal_strlit("CRD");
                        reveal_strlit("RDI");
                        reveal_strlit("RDF");
                        reveal_strlit("RDS");
                        reveal_strlit("CRDS");
                        reveal_strlit("OUT");
                        let cmds = crate::td_assembly::assembly_commands();
                        let j = choose|j: int| 0 <= j < cmds.len() && cmds[j] == s@;
                        assert(cmds[j].len() > 0);
                    }
                    let mut l1 = lit("OUT ");
                    extend(&mut l1, &slice(&s, 0, 1));
                    let mut l2 = lit("OUT ");
                    extend(&mut l2, &slice(&s, 1, s.len()));
                    assert(s@.take(1) =~= s@.subrange(0, 1));
                    assert(s@.skip(1) =~= s@.subrange(1, s@.len() as int));
                    ls.push(l1);
                    ls.push(l2);
                } else {
                    let mut l = lit("OUT ");
                    extend(&mut l, &s);
                    ls.push(l);
                }
            }
        } else {
            let mut inner = int_part(v.ints());
            extend(&mut inner, &lit(" "));
            extend(&mut inner, floats);
            let mut out = trim_chars(&inner);
            extend(&mut out, &lit(" "));
            extend(&mut out, &str_part(v.stri()));
            let out = trim_chars(&out);
            let mut l = lit("OUT RD QU ");
            extend(&mut l, &decimal_u64(v.quantity()));
            extend(&mut l, &lit(" EC "));
            extend(&mut l, &end_char_part(v.end_char()));
            extend(&mut l, &lit(" "));
            extend(&mut l, &out);
            extend(&mut l, &lit(" CRD"));
            ls.push(l);
        }
        let ghost want = token_lines(v@, floats@)->0;
        assert(ls@.map_values(|l: Vec<char>| l@) =~= want);
        Some(ls)
    }

    /// The TD assembly of the tokens; `float_outs[i]` is the text of the
    /// `RDF` commands of token `i` (empty when it has none or is missing).
    pub fn compile(&mut self, tokens: &Vec<Variable>, float_outs: &Vec<String>) -> (res: Result<
        String,
        CompilerError,
    >)
        requires
            old(self).wf(),
        ensures
            final(self).wf(),
            match (res, spec_compile(views(tokens@), string_views(float_outs@))) {
                (Ok(s), Ok(t)) => s@ == t,
                (Err(e), Err(t)) => e@ == t,
                _ => false,
            },
    {
        let ghost toks = views(tokens@);
        let ghost floats = string_views(float_outs@);
        let mut lines: Vec<Vec<char>> = Vec::new();
        let n = tokens.len();
        for i in 0..n
            invariant
                n == tokens@.len() == toks.len(),
                toks == views(tokens@),
                floats == string_views(float_outs@),
                self.wf(),
                program_lines(toks, floats, i as int) == Some(lines@.map_values(|l: Vec<char>| l@)),
        {
            let f = if i < float_outs.len() {
                chars_of(float_outs[i].as_str())
            } else {
                Vec::new()
            };
            assert(f@ == float_text_of(floats, i as int));
            assert(tokens@[i as int]@ == toks[i as int]);
            match self.token_lines(&tokens[i], &f) {
                Some(mut t) => {
                    let ghost before = lines@.map_values(|l: Vec<char>| l@);
                    let ghost tv = t@.map_values(|l: Vec<char>| l@);
                    lines.append(&mut t);
                    assert(lines@.map_values(|l: Vec<char>| l@) =~= before + tv);
                },
                None => {
                    proof {
                        lemma_program_lines_none(toks, floats, i as int + 1, n as int);
                    }
                    let loc = Location::new(String::from_str("PLEASE REPORT"), 0, 0);
                    return Err(CompilerError::new("Internal CompilerError", &loc));
                },
            }
        }
        let mut res: Vec<char> = Vec::new();
        let m = lines.len();
        let ghost lv = lines@.map_values(|l: Vec<char>| l@);
        assert(lv.take(0) =~= Seq::<Seq<char>>::empty());
        for j in 0..m
            invariant
                m == lines@.len(),
                lv == lines@.map_values(|l: Vec<char>| l@),
                res@ == join_lines(lv.take(j as int)),
        {
            assert(lv.take(j + 1).drop_last() =~= lv.take(j as int));
            if j > 0 {
                extend(&mut res, &lit("\n"));
            } else {
                assert(lv.take(1) =~= seq![lv[0]]);
            }
            extend(&mut res, &lines[j]);
        }
        assert(lv.take(m as int) =~= lv);
        Ok(string_of(&res))
    }
}

proof fn lemma_program_lines_none(toks: Seq<VariableView>, floats: Seq<Seq<char>>, k: int, n: int)
    requires
        0 <= k <= n,
        program_lines(toks, floats, k) is None,
    ensures
        program_lines(toks, floats, n) is None,
    decreases n - k,
{
    if k < n {
        lemma_program_lines_none(toks, floats, k + 1, n);
    }
}


proof fn lemma_commands_revealed()
    ensures
        crate::td_assembly::assembly_commands() == seq![
            seq!['R', 'E', 'P'],
            seq!['C', 'R', 'E', 'P'],
            seq!['R', 'D'],
            seq!['Q', 'U'],
            seq!['E', 'C'],
            seq!['C', 'R', 'D'],
            seq!['R', 'D', 'I'],
            seq!['R', 'D', 'F'],
            seq!['R', 'D', 'S'],
            seq!['C', 'R', 'D', 'S'],
            seq!['O', 'U', 'T'],
        ],
{
    reveal_strlit("REP");
    reveal_strlit("CREP");
    reveal_strlit("RD");
    reveal_strlit("QU");
    reveal_strlit("EC");
    reveal_strlit("CRD");
    reveal_strlit("RDI");
    reveal_strlit("RDF");
    reveal_strlit("RDS");
    reveal_strlit("CRDS");
    reveal_strlit("OUT");
    assert("REP"@ =~= seq!['R', 'E', 'P']);
    assert("CREP"@ =~= seq!['C', 'R', 'E', 'P']);
    assert("RD"@ =~= seq!['R', 'D']);
    assert("QU"@ =~= seq!['Q', 'U']);
    assert("EC"@ =~= seq!['E', 'C']);
    assert("CRD"@ =~= seq!['C', 'R', 'D']);
    assert("RDI"@ =~= seq!['R', 'D', 'I']);
    assert("RDF"@ =~= seq!['R', 'D', 'F']);
    assert("RDS"@ =~= seq!['R', 'D', 'S']);
    assert("CRDS"@ =~= seq!['C', 'R', 'D', 'S']);
    assert("OUT"@ =~= seq!['O', 'U', 'T']);
    assert(crate::td_assembly::assembly_commands() =~= seq![
        seq!['R', 'E', 'P'],
        seq!['C', 'R', 'E', 'P'],
        seq!['R', 'D'],
        seq!['Q', 'U'],
        seq!['E', 'C'],
        seq!['C', 'R', 'D'],
        seq!['R', 'D', 'I'],
        seq!['R', 'D', 'F'],
        seq!['R', 'D', 'S'],
        seq!['C', 'R', 'D', 'S'],
        seq!['O', 'U', 'T'],
    ]);
}

/// A constant is written by `OUT` lines whose words are no commands (a
/// constant that is a command is split after its first letter), but for the
/// constants whose text is `CRD`, `CREP` or `CRDS`: their tails `RD`, `REP`
/// and `RDS` are commands.
pub proof fn law_const_lines(v: VariableView, floats: Seq<char>)
    requires
        v.constant,
        v.tag == 0,
        const_text(v.const_str) != "CRD"@,
        const_text(v.const_str) != "CREP"@,
        const_text(v.const_str) != "CRDS"@,
    ensures
        token_lines(v, floats) is Some,
        forall|i: int|
            0 <= i < token_lines(v, floats)->0.len() ==> (#[trigger] token_lines(v, floats)->0[i]).take(
                4,
            ) == "OUT "@ && !is_assembly_command(token_lines(v, floats)->0[i].skip(4)),
{
    reveal_strlit("OUT ");
    reveal_strlit("CRD");
    reveal_strlit("CREP");
    reveal_strlit("CRDS");
    lemma_commands_revealed();
    let s = const_text(v.const_str);
    let ls = token_lines(v, floats)->0;
    let cmds = crate::td_assembly::assembly_commands();
    if is_assembly_command(s) {
        let j = choose|j: int| 0 <= j < cmds.len() && cmds[j] == s;
        let a = s.take(1);
        let b = s.skip(1);
        assert(("OUT "@ + a).take(4) =~= "OUT "@ && ("OUT "@ + a).skip(4) =~= a);
        assert(("OUT "@ + b).take(4) =~= "OUT "@ && ("OUT "@ + b).skip(4) =~= b);
        assert(!is_assembly_command(a)) by {
            if is_assembly_command(a) {
                let k = choose|k: int| 0 <= k < cmds.len() && cmds[k] == a;
                assert(cmds[k].len() >= 2);
            }
        }
        assert(j != 1 && j != 5 && j != 9);
        assert(!is_assembly_command(b)) by {
            if is_assembly_command(b) {
                let k = choose|k: int| 0 <= k < cmds.len() && cmds[k] == b;
                assert(b.len() == cmds[j].len() - 1);
                assert(b[0] == cmds[j][1]);
                assert(cmds[k][0] == b[0]);
                assert(cmds[k].len() == b.len());
                if b.len() >= 2 {
                    assert(cmds[k][1] == b[1]);
                }
            }
        }
    } else {
        assert(("OUT "@ + s).take(4) =~= "OUT "@ && ("OUT "@ + s).skip(4) =~= s);
    }
}

proof fn lemma_command_chars()
    ensures
        forall|x: Seq<char>| #[trigger]
            is_assembly_command(x) ==> 2 <= x.len() <= 4 && x[0] != '\n' && x.last() != '\n',
{
    lemma_commands_revealed();
    let cmds = crate::td_assembly::assembly_commands();
    assert forall|x: Seq<char>| #[trigger]
        is_assembly_command(x) implies 2 <= x.len() <= 4 && x[0] != '\n' && x.last() != '\n' by {
        let j = choose|j: int| 0 <= j < cmds.len() && cmds[j] == x;
        assert(0 <= j < 11);
    }
}

proof fn lemma_const_text_end(x: Seq<char>)
    ensures
        const_text(x).len() > 0 ==> const_text(x).last() != '\n',
{
    reveal_strlit(" ");
    reveal_strlit("  ");
    let t = trim(replace(replace(x, " "@, " SPACE "@), "\n"@, " NEWLINE "@));
    lemma_trim_last(replace(replace(x, " "@, " SPACE "@), "\n"@, " NEWLINE "@));
    lemma_replace_last(t, "  "@, " "@);
}

proof fn lemma_token_lines_end(v: VariableView, floats: Seq<char>)
    ensures
        token_lines(v, floats) is Some ==> forall|i: int|
            0 <= i < token_lines(v, floats)->0.len() ==> (#[trigger] token_lines(v, floats)->0[i]).len()
                > 0 && token_lines(v, floats)->0[i].last() != '\n',
{
    reveal_strlit("OUT ");
    reveal_strlit("CREP");
    reveal_strlit(" CRD");
    lemma_command_chars();
    let q = v.quantity as nat;
    assert(decimal(q).len() > 0 && decimal(q).last() != '\n');
    if v.constant && v.tag == 0 {
        lemma_const_text_end(v.const_str);
        let s = const_text(v.const_str);
        if is_assembly_command(s) {
            assert(s.take(1).last() == s[0]);
            assert(s.skip(1).last() == s.last());
        }
    }
}

proof fn lemma_token_lines_out(v: VariableView, floats: Seq<char>)
    requires
        v.constant && v.tag == 0 ==> const_text(v.const_str) != "CRD"@ && const_text(v.const_str)
            != "CREP"@ && const_text(v.const_str) != "CRDS"@,
    ensures
        token_lines(v, floats) is Some ==> forall|i: int|
            0 <= i < token_lines(v, floats)->0.len() && (#[trigger] token_lines(v, floats)->0[i]).take(4)
                == "OUT "@ ==> !is_assembly_command(token_lines(v, floats)->0[i].skip(4)),
{
    reveal_strlit("OUT ");
    reveal_strlit("OUT RD QU ");
    reveal_strlit("REP ");
    reveal_strlit("CREP");
    lemma_command_chars();
    if v.constant {
        if v.tag == 0 {
            law_const_lines(v, floats);
        } else if v.tag == 1 {
            let l = "REP "@ + decimal(v.quantity as nat);
            assert(l.take(4)[0] == 'R');
        } else if v.tag == 2 {
            assert("CREP"@.take(4) =~= "CREP"@);
        }
    } else {
        let l = token_lines(v, floats)->0[0];
        assert(l.skip(4).len() > 4);
    }
}

proof fn lemma_program_lines_end(toks: Seq<VariableView>, floats: Seq<Seq<char>>, k: int)
    ensures
        program_lines(toks, floats, k) is Some ==> forall|i: int|
            0 <= i < program_lines(toks, floats, k)->0.len() ==> (#[trigger] program_lines(
                toks,
                floats,
                k,
            )->0[i]).len() > 0 && program_lines(toks, floats, k)->0[i].last() != '\n',
    decreases k,
{
    if k > 0 {
        lemma_program_lines_end(toks, floats, k - 1);
        lemma_token_lines_end(toks[k - 1], float_text_of(floats, k - 1));
    }
}

proof fn lemma_program_lines_out(toks: Seq<VariableView>, floats: Seq<Seq<char>>, k: int)
    requires
        forall|j: int|
            0 <= j < k && (#[trigger] toks[j]).constant && toks[j].tag == 0 ==> const_text(
                toks[j].const_str,
            ) != "CRD"@ && const_text(toks[j].const_str) != "CREP"@ && const_text(toks[j].const_str)
                != "CRDS"@,
    ensures
        program_lines(toks, floats, k) is Some ==> forall|i: int|
            0 <= i < program_lines(toks, floats, k)->0.len() && (#[trigger] program_lines(
                toks,
                floats,
                k,
            )->0[i]).take(4) == "OUT "@ ==> !is_assembly_command(
                program_lines(toks, floats, k)->0[i].skip(4),
            ),
    decreases k,
{
    if k > 0 {
        lemma_program_lines_out(toks, floats, k - 1);
        let v = toks[k - 1];
        lemma_token_lines_out(v, float_text_of(floats, k - 1));
    }
}

/// Compiled TD assembly does not end in a newline: each line that the
/// compiler joins is non-empty and its last character is no newline.
pub proof fn law_compile_no_trailing_newline(toks: Seq<VariableView>, floats: Seq<Seq<char>>)
    ensures
        spec_compile(toks, floats) matches Ok(s) ==> s.len() == 0 || s.last() != '\n',
{
    lemma_program_lines_end(toks, floats, toks.len() as int);
    if program_lines(toks, floats, toks.len() as int) is Some {
        let ls = program_lines(toks, floats, toks.len() as int)->0;
        if ls.len() > 1 {
            assert(ls.last() == ls[ls.len() - 1]);
        } else if ls.len() == 1 {
            assert(ls[0].len() > 0);
        }
    }
}

/// No `OUT` line of compiled TD assembly carries a bare command: a constant
/// that is a command is written in two pieces. This holds of every script
/// without a constant whose text is `CRD`, `CREP` or `CRDS` (the second pieces
/// of these are commands).
pub proof fn law_compile_out_lines(toks: Seq<VariableView>, floats: Seq<Seq<char>>)
    requires
        forall|j: int|
            0 <= j < toks.len() && (#[trigger] toks[j]).constant && toks[j].tag == 0 ==> const_text(
                toks[j].const_str,
            ) != "CRD"@ && const_text(toks[j].const_str) != "CREP"@ && const_text(toks[j].const_str)
                != "CRDS"@,
    ensures
        program_lines(toks, floats, toks.len() as int) is Some ==> forall|i: int|
            0 <= i < program_lines(toks, floats, toks.len() as int)->0.len() && (#[trigger] program_lines(
                toks,
                floats,
                toks.len() as int,
            )->0[i]).take(4) == "OUT "@ ==> !is_assembly_command(
                program_lines(toks, floats, toks.len() as int)->0[i].skip(4),
            ),
{
    lemma_program_lines_out(toks, floats, toks.len() as int);
}

spec fn spaced(s: Seq<char>) -> Seq<char> {
    replace(s, " "@, " SPACE "@)
}

proof fn lemma_spaced_prefix(set: Seq<char>, n: int)
    requires
        0 <= n <= set.len(),
        only_spaces(set),
        free_of(set, "SPACE"@),
    ensures
        words_chars(words(spaced(set.take(n)))) == set.take(n),
        forall|i: int|
            0 <= i < words(spaced(set.take(n))).len() ==> plain_word(
                #[trigger] words(spaced(set.take(n)))[i],
            ),
        exists|k: int| 0 <= k <= n && words(spaced(set.take(n))).last() == #[trigger] set.subrange(k, n),
        only_spaces(spaced(set.take(n))),
    decreases n,
{
    reveal_strlit(" ");
    reveal_strlit(" SPACE ");
    lemma_space_word();
    let e = Seq::<char>::empty();
    if n == 0 {
        assert(set.take(0) =~= e);
        assert(spaced(e) == e);
        assert(words(e) =~= seq![e]);
        assert(seq![e] =~= Seq::<Seq<char>>::empty().push(e));
        lemma_words_chars_push_empty(Seq::<Seq<char>>::empty());
        assert(set.subrange(0, 0) =~= e);
        assert(free_of(e, "SPACE"@));
    } else {
        lemma_spaced_prefix(set, n - 1);
        let s = set.take(n - 1);
        let c = set[n - 1];
        assert(set.take(n) =~= s.push(c));
        assert(" "@ =~= seq![' ']);
        lemma_replace_push1(s, c, " "@, " SPACE "@);
        let x = spaced(s);
        let ws = words(x);
        let k = choose|k: int| 0 <= k <= n - 1 && ws.last() == #[trigger] set.subrange(k, n - 1);
        lemma_words_push(x, ' ');
        lemma_free_of_subrange(set, "SPACE"@, k, n - 1);
        lemma_word_chars_plain(ws.last());
        assert(ws.drop_last().push(ws.last()) =~= ws);
        assert(words_chars(ws) == words_chars(ws.drop_last()) + word_chars(ws.last()));
        if c == ' ' {
            let sp = seq!['S', 'P', 'A', 'C', 'E'];
            let y1 = x.push(' ');
            let y2 = y1.push('S');
            let y3 = y2.push('P');
            let y4 = y3.push('A');
            let y5 = y4.push('C');
            let y6 = y5.push('E');
            let y7 = y6.push(' ');
            assert(spaced(set.take(n)) =~= y7);
            lemma_words_push(y1, 'S');
            lemma_words_push(y2, 'P');
            lemma_words_push(y3, 'A');
            lemma_words_push(y4, 'C');
            lemma_words_push(y5, 'E');
            lemma_words_push(y6, ' ');
            assert(words(y1) == ws.push(e));
            assert(e.push('S') =~= seq!['S']);
            assert(seq!['S'].push('P') =~= seq!['S', 'P']);
            assert(seq!['S', 'P'].push('A') =~= seq!['S', 'P', 'A']);
            assert(seq!['S', 'P', 'A'].push('C') =~= seq!['S', 'P', 'A', 'C']);
            assert(seq!['S', 'P', 'A', 'C'].push('E') =~= sp);
            assert(words(y2) =~= ws.push(seq!['S']));
            assert(words(y3) =~= ws.push(seq!['S', 'P']));
            assert(words(y4) =~= ws.push(seq!['S', 'P', 'A']));
            assert(words(y5) =~= ws.push(seq!['S', 'P', 'A', 'C']));
            assert(words(y6) =~= ws.push(sp));
            assert(words(y7) =~= ws.push(sp).push(e));
            lemma_words_chars_push_empty(ws.push(sp));
            assert(ws.push(sp).drop_last() =~= ws);
            assert(words_chars(ws.push(sp)) == words_chars(ws) + word_chars(sp));
            assert(word_chars(sp) == seq![' ']);
            assert(set.subrange(n, n) =~= e);
            assert(free_of(e, "SPACE"@));
            assert forall|i: int| 0 <= i < words(y7).len() implies plain_word(#[trigger] words(y7)[i]) by {
                if i < ws.len() {
                    assert(words(y7)[i] == ws[i]);
                }
            }
            assert forall|i: int| 0 <= i < y7.len() implies #[trigger] y7[i] == ' ' || !is_space(y7[i]) by {
                if i < x.len() {
                    assert(y7[i] == x[i]);
                }
            }
        } else {
            assert(!is_space(c));
            let x2 = x.push(c);
            assert(spaced(set.take(n)) =~= x2);
            lemma_words_push(x, c);
            let w2 = ws.update(ws.len() - 1, ws.last().push(c));
            assert(words(x2) == w2);
            assert(ws.last().push(c) =~= set.subrange(k, n));
            lemma_free_of_subrange(set, "SPACE"@, k, n);
            lemma_word_chars_plain(set.subrange(k, n));
            assert(w2.drop_last() =~= ws.drop_last());
            assert(w2.last() == set.subrange(k, n));
            assert(words_chars(w2) == words_chars(w2.drop_last()) + word_chars(w2.last()));
            assert(words_chars(w2) =~= words_chars(ws).push(c));
            assert forall|i: int| 0 <= i < w2.len() implies plain_word(#[trigger] w2[i]) by {
                if i < ws.len() - 1 {
                    assert(w2[i] == ws[i]);
                }
            }
            assert forall|i: int| 0 <= i < x2.len() implies #[trigger] x2[i] == ' ' || !is_space(x2[i]) by {
                if i < x.len() {
                    assert(x2[i] == x[i]);
                }
            }
        }
    }
}

/// What the compiler writes of a non-empty character set is `RDS`, words,
/// and `CRDS`; read back with the word `SPACE` as a space, the words give
/// exactly the characters of the set, in order. Each word is `SPACE` or
/// holds no `SPACE`, and no word holds a newline. This holds of every set
/// whose only white space is the space and in which `SPACE` does not occur.
pub proof fn law_str_text_words(set: Seq<char>)
    requires
        set.len() > 0,
        only_spaces(set),
        free_of(set, "SPACE"@),
    ensures
        exists|b: Seq<char>|
            #![trigger words(b)]
            str_text(set) == "RDS "@ + b + " CRDS"@ && words_chars(words(b)) == set && (forall|i: int|
                0 <= i < words(b).len() ==> plain_word(#[trigger] words(b)[i])) && !has_char(b, '\n'),
{
    lemma_spaced_prefix(set, set.len() as int);
    assert(set.take(set.len() as int) =~= set);
    let x = spaced(set);
    let b = trim(x);
    lemma_trim_words(x);
    if has_char(b, '\n') {
        let i = choose|i: int| 0 <= i < b.len() && b[i] == '\n';
        assert(b[i] == ' ' || !is_space(b[i]));
    }
    if b.len() == 0 {
        let e = Seq::<char>::empty();
        assert(b =~= e);
        assert(words(e) =~= seq![e]);
        assert(seq![e] =~= Seq::<Seq<char>>::empty().push(e));
        lemma_words_chars_push_empty(Seq::<Seq<char>>::empty());
    }
    assert(str_text(set) == "RDS "@ + b + " CRDS"@);
}

} // verus!
