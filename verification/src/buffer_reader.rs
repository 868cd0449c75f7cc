//! The reader of a compiled program: its tokens, and where reading is.
use vstd::prelude::*;
use crate::error::RuntimeError;
use crate::number::{parse_i64, parse_i64_spec, parse_u64, parse_u64_spec};
use crate::text::{chars_of, lit, replace, replace_chars, split_chars_on, split_on, string_of, trim, trim_chars};

verus! {

/// The tokens of a compiled program: without carriage returns, trimmed, and
/// split at every space and every newline.
pub open spec fn tokens_of(source: Seq<char>) -> Seq<Seq<char>> {
    split_on(trim(replace(source, "\r"@, ""@)), ' ', '\n')
}

pub open spec fn out_of_tokens_msg() -> Seq<char> {
    "Internal RuntimeError: buffer out of empty before virtual machine closes. may cause by self.move_reader()"@
}

pub open spec fn convert_msg() -> Seq<char> {
    "Internal RuntimeError: cannot convert this token to type T"@
}

/// Reading the next token: where reading is then, and the token or the error
/// (a program never has `usize::MAX` tokens).
pub open spec fn read_next(tokens: Seq<Seq<char>>, ptr: usize) -> (usize, Result<Seq<char>, Seq<char>>) {
    if ptr < tokens.len() && ptr < usize::MAX {
        ((ptr + 1) as usize, Ok(tokens[ptr as int]))
    } else {
        (ptr, Err(out_of_tokens_msg()))
    }
}

/// Reading the next token as a `T`.
pub open spec fn read_value<T: TokenValue>(tokens: Seq<Seq<char>>, ptr: usize) -> (usize, Result<T, Seq<char>>) {
    let (p, r) = read_next(tokens, ptr);
    match r {
        Ok(t) => match T::from_token(t) {
            Some(v) => (p, Ok(v)),
            None => (p, Err(convert_msg())),
        },
        Err(e) => (p, Err(e)),
    }
}

pub open spec fn text_result(r: Result<String, RuntimeError>) -> Result<Seq<char>, Seq<char>> {
    match r {
        Ok(s) => Ok(s@),
        Err(e) => Err(e@),
    }
}

pub open spec fn value_result<T>(r: Result<T, RuntimeError>) -> Result<T, Seq<char>> {
    match r {
        Ok(v) => Ok(v),
        Err(e) => Err(e@),
    }
}

/// A value that an argument token can be read as.
pub trait TokenValue: Sized {
    spec fn from_token(s: Seq<char>) -> Option<Self>;

    fn parse_token(s: &Vec<char>) -> (r: Option<Self>)
        ensures
            r == Self::from_token(s@),
    ;
}

impl TokenValue for u64 {
    open spec fn from_token(s: Seq<char>) -> Option<u64> {
        parse_u64_spec(s)
    }

    fn parse_token(s: &Vec<char>) -> (r: Option<u64>) {
        parse_u64(s)
    }
}

impl TokenValue for i64 {
    open spec fn from_token(s: Seq<char>) -> Option<i64> {
        parse_i64_spec(s)
    }

    fn parse_token(s: &Vec<char>) -> (r: Option<i64>) {
        parse_i64(s)
    }
}

/// The tokens of a compiled program and the index of the next one to read.
pub struct BufferReader {
    buffer: Vec<String>,
    buf_pointer: usize,
}

impl BufferReader {
    pub closed spec fn tokens(&self) -> Seq<Seq<char>> {
        self.buffer@.map_values(|s: String| s@)
    }

    pub closed spec fn pointer(&self) -> usize {
        self.buf_pointer
    }

    /// A reader of the program `source`, at its first token.
    pub fn new(source: String) -> (res: Self)
        ensures
            res.tokens() == tokens_of(source@),
            res.pointer() == 0,
    {
        let c = chars_of(source.as_str());
        proof {
            reveal_strlit("\r");
        }
        let no_cr = replace_chars(&c, &lit("\r"), &lit(""));
        let t = trim_chars(&no_cr);
        let pieces = split_chars_on(&t, ' ', '\n');
        let mut buffer: Vec<String> = Vec::new();
        let n = pieces.len();
        for i in 0..n
            invariant
                n == pieces@.len() == split_on(t@, ' ', '\n').len(),
                forall|k: int| 0 <= k < n ==> #[trigger] pieces@[k]@ == split_on(t@, ' ', '\n')[k],
                buffer@.len() == i,
                forall|k: int| 0 <= k < i ==> #[trigger] buffer@[k]@ == split_on(t@, ' ', '\n')[k],
        {
            buffer.push(string_of(&pieces[i]));
        }
        let res = BufferReader { buffer, buf_pointer: 0 };
        assert(res.tokens() =~= tokens_of(source@));
        res
    }

    /// The next token; an error when none is left.
    pub fn read_cmd(&mut self) -> (r: Result<String, RuntimeError>)
        ensures
            final(self).tokens() == old(self).tokens(),
            (final(self).pointer(), text_result(r)) == read_next(old(self).tokens(), old(self).pointer()),
    {
        if self.buffer.len() <= self.buf_pointer {
            return Err(
                RuntimeError::new(
                    "Internal RuntimeError: buffer out of empty before virtual machine closes. may cause by self.move_reader()",
                ),
            );
        }
        let t = self.buffer[self.buf_pointer].clone();
        assert(t@ == self.tokens()[self.buf_pointer as int]);
        self.buf_pointer += 1;
        Ok(t)
    }

    /// The next token; an error when none is left.
    pub fn read_token(&mut self) -> (r: Result<String, RuntimeError>)
        ensures
            final(self).tokens() == old(self).tokens(),
            (final(self).pointer(), text_result(r)) == read_next(old(self).tokens(), old(self).pointer()),
    {
        self.read_cmd()
    }

    /// The next token, read as a `T`.
    pub fn read_arg<T: TokenValue>(&mut self) -> (r: Result<T, RuntimeError>)
        ensures
            final(self).tokens() == old(self).tokens(),
            (final(self).pointer(), value_result(r)) == read_value::<T>(old(self).tokens(), old(self).pointer()),
    {
        let t = self.read_cmd()?;
        let c = chars_of(t.as_str());
        match T::parse_token(&c) {
            Some(v) => Ok(v),
            None => Err(RuntimeError::new("Internal RuntimeError: cannot convert this token to type T")),
        }
    }

    /// The tokens not read yet; the reader then stands at the end.
    pub fn read_to_end(&mut self) -> (r: Result<Vec<String>, RuntimeError>)
        ensures
            final(self).tokens() == old(self).tokens(),
            final(self).pointer() == old(self).tokens().len(),
            r is Ok,
            r->Ok_0@.map_values(|s: String| s@) == (if old(self).pointer() <= old(
                self,
            ).tokens().len() {
                old(self).tokens().skip(old(self).pointer() as int)
            } else {
                Seq::<Seq<char>>::empty()
            }),
    {
        let mut res: Vec<String> = Vec::new();
        let n = self.buffer.len();
        let start = self.buf_pointer;
        let mut i = start;
        while i < n
            invariant
                n == self.buffer@.len(),
                start <= i,
                start <= n ==> i <= n,
                start > n ==> i == start,
                res@.len() == i - start,
                forall|k: int| 0 <= k < i - start ==> #[trigger] res@[k]@ == self.buffer@[start + k]@,
            decreases n - i,
        {
            res.push(self.buffer[i].clone());
            i += 1;
        }
        self.buf_pointer = n;
        let ghost want = if start <= n {
            old(self).tokens().skip(start as int)
        } else {
            Seq::<Seq<char>>::empty()
        };
        if start <= n {
            assert(res@.len() == want.len());
            assert forall|k: int| 0 <= k < res@.len() implies res@.map_values(
                |s: String| s@,
            )[k] == #[trigger] want[k] by {
                assert(res@[k]@ == self.buffer@[start + k]@);
                assert(old(self).tokens()[start + k] == old(self).buffer@[start + k]@);
            }
            assert(res@.map_values(|s: String| s@) =~= want);
        } else {
            assert(res@.len() == 0);
            assert(res@.map_values(|s: String| s@) =~= want);
        }
        Ok(res)
    }

    /// The number of tokens.
    pub fn len(&self) -> (r: usize)
        ensures
            r == self.tokens().len(),
    {
        self.buffer.len()
    }

    pub fn get_reader_index(&self) -> (r: usize)
        ensures
            r == self.pointer(),
    {
        self.buf_pointer
    }

    pub fn move_reader(&mut self, position: usize)
        ensures
            final(self).tokens() == old(self).tokens(),
            final(self).pointer() == position,
    {
        self.buf_pointer = position
    }
}


/// The results of `n` reads from `ptr` on.
pub open spec fn reads(tokens: Seq<Seq<char>>, ptr: usize, n: nat) -> Seq<Result<Seq<char>, Seq<char>>>
    decreases n,
{
    if n == 0 {
        seq![]
    } else {
        let (p, r) = read_next(tokens, ptr);
        seq![r] + reads(tokens, p, (n - 1) as nat)
    }
}

proof fn lemma_reads(tokens: Seq<Seq<char>>, ptr: usize)
    requires
        ptr <= tokens.len() < usize::MAX,
    ensures
        reads(tokens, ptr, (tokens.len() - ptr) as nat) == tokens.skip(ptr as int).map_values(
            |t: Seq<char>| Ok::<Seq<char>, Seq<char>>(t),
        ),
    decreases tokens.len() - ptr,
{
    if ptr < tokens.len() {
        lemma_reads(tokens, (ptr + 1) as usize);
        assert(tokens.skip(ptr as int).drop_first() =~= tokens.skip(ptr + 1));
    }
    assert(reads(tokens, ptr, (tokens.len() - ptr) as nat) =~= tokens.skip(ptr as int).map_values(
        |t: Seq<char>| Ok::<Seq<char>, Seq<char>>(t),
    ));
}

/// From the first token, successive reads give every token in order, and
/// the read after the last one gives the out-of-tokens error.
pub proof fn law_read_in_order(tokens: Seq<Seq<char>>)
    requires
        tokens.len() < usize::MAX,
    ensures
        reads(tokens, 0, tokens.len()) == tokens.map_values(
            |t: Seq<char>| Ok::<Seq<char>, Seq<char>>(t),
        ),
        reads(tokens, 0, tokens.len() + 1) == tokens.map_values(
            |t: Seq<char>| Ok::<Seq<char>, Seq<char>>(t),
        ).push(Err(out_of_tokens_msg())),
{
    lemma_reads(tokens, 0);
    assert(tokens.skip(0) =~= tokens);
    lemma_reads_last(tokens, 0);
}

proof fn lemma_reads_last(tokens: Seq<Seq<char>>, ptr: usize)
    requires
        ptr <= tokens.len() < usize::MAX,
    ensures
        reads(tokens, ptr, (tokens.len() - ptr + 1) as nat) == reads(
            tokens,
            ptr,
            (tokens.len() - ptr) as nat,
        ).push(Err(out_of_tokens_msg())),
    decreases tokens.len() - ptr,
{
    if ptr < tokens.len() {
        lemma_reads_last(tokens, (ptr + 1) as usize);
        let r = Ok::<Seq<char>, Seq<char>>(tokens[ptr as int]);
        assert(seq![r] + reads(tokens, (ptr + 1) as usize, (tokens.len() - ptr - 1) as nat).push(
            Err(out_of_tokens_msg()),
        ) =~= (seq![r] + reads(tokens, (ptr + 1) as usize, (tokens.len() - ptr - 1) as nat)).push(
            Err(out_of_tokens_msg()),
        ));
    } else {
        assert(reads(tokens, ptr, 0) =~= Seq::<Result<Seq<char>, Seq<char>>>::empty());
        assert(reads(tokens, ptr, 1) =~= seq![Err::<Seq<char>, Seq<char>>(out_of_tokens_msg())]);
    }
}

} // verus!
