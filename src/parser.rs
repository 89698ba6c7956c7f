//! The Brainfuck grammar: the eight command bytes, with `[` and `]` matched;
//! every other byte is a comment.
use vstd::prelude::*;

use crate::BFRaw;

verus! {

broadcast use vstd::std_specs::vec::axiom_vec_index_decreases, vstd::seq::axiom_seq_index_decreases;

/// One of the eight command bytes.
pub open spec fn is_command(c: u8) -> bool {
    c == 60 || c == 62 || c == 43 || c == 45 || c == 44 || c == 46 || c == 91 || c == 93
}

/// The command bytes of `s`, in order.
pub open spec fn commands(s: Seq<u8>) -> Seq<u8>
    decreases s.len(),
{
    if s.len() == 0 {
        Seq::empty()
    } else if is_command(s.last()) {
        commands(s.drop_last()).push(s.last())
    } else {
        commands(s.drop_last())
    }
}

/// The source text of one instruction.
pub open spec fn token(i: BFRaw) -> Seq<u8>
    decreases i,
{
    match i {
        BFRaw::Lft => seq![60u8],
        BFRaw::Rgh => seq![62u8],
        BFRaw::Inc => seq![43u8],
        BFRaw::Dec => seq![45u8],
        BFRaw::Ask => seq![44u8],
        BFRaw::Put => seq![46u8],
        BFRaw::Loop(is) => seq![91u8] + unparse(is@) + seq![93u8],
    }
}

/// The source text of a sequence of instructions.
pub open spec fn unparse(is: Seq<BFRaw>) -> Seq<u8>
    decreases is,
{
    if is.len() == 0 {
        Seq::empty()
    } else {
        unparse(is.drop_last()) + token(is.last())
    }
}

/// Open brackets minus close brackets in `s`.
pub open spec fn depth(s: Seq<u8>) -> int
    decreases s.len(),
{
    if s.len() == 0 {
        0
    } else if s.last() == 91 {
        depth(s.drop_last()) + 1
    } else if s.last() == 93 {
        depth(s.drop_last()) - 1
    } else {
        depth(s.drop_last())
    }
}

/// Some prefix of `s` closes a bracket that it never opened.
pub open spec fn closes_unopened(s: Seq<u8>) -> bool {
    exists|k: int| 0 <= k <= s.len() && #[trigger] depth(s.subrange(0, k)) < 0
}

/// Every bracket of `s` is matched.
pub open spec fn balanced(s: Seq<u8>) -> bool {
    !closes_unopened(s) && depth(s) == 0
}

/// Why a program does not parse.
#[derive(Debug, Clone, Copy, PartialEq, Eq, Structural)]
pub enum ParseError {
    /// A `]` with no `[` before it.
    UnmatchedClose,
    /// A `[` that is never closed.
    Unclosed,
}

/// The text of a stack of open loops: each frame after the first is preceded
/// by the `[` that opened it.
pub open spec fn frames_text(fs: Seq<Seq<BFRaw>>) -> Seq<u8>
    decreases fs.len(),
{
    if fs.len() == 0 {
        Seq::empty()
    } else if fs.len() == 1 {
        unparse(fs[0])
    } else {
        frames_text(fs.drop_last()) + seq![91u8] + unparse(fs.last())
    }
}

/// A stack of frames, each as a sequence.
pub open spec fn frames_view(st: Seq<Vec<BFRaw>>) -> Seq<Seq<BFRaw>> {
    Seq::new(st.len(), |i: int| st[i]@)
}

proof fn lemma_unparse_push(is: Seq<BFRaw>, x: BFRaw)
    ensures
        unparse(is.push(x)) == unparse(is) + token(x),
{
    assert(is.push(x).drop_last() == is);
}

proof fn lemma_prefix_commands(s: Seq<u8>, i: int)
    requires
        0 <= i < s.len(),
    ensures
        commands(s.subrange(0, i + 1)) == if is_command(s[i]) {
            commands(s.subrange(0, i)).push(s[i])
        } else {
            commands(s.subrange(0, i))
        },
{
    assert(s.subrange(0, i + 1).drop_last() =~= s.subrange(0, i));
}

proof fn lemma_commands_prefix(s: Seq<u8>, i: int)
    requires
        0 <= i <= s.len(),
    ensures
        commands(s.subrange(0, i)).len() <= commands(s).len(),
        commands(s.subrange(0, i)) == commands(s).subrange(0, commands(s.subrange(0, i)).len() as int),
    decreases s.len() - i,
{
    if i == s.len() {
        assert(s.subrange(0, i) =~= s);
        assert(commands(s).subrange(0, commands(s).len() as int) =~= commands(s));
    } else {
        lemma_commands_prefix(s, i + 1);
        lemma_prefix_commands(s, i);
        let c1 = commands(s.subrange(0, i + 1));
        let c0 = commands(s.subrange(0, i));
        assert(c0 =~= c1.subrange(0, c0.len() as int));
        assert(c0 =~= commands(s).subrange(0, c0.len() as int));
    }
}

proof fn lemma_depth_push(s: Seq<u8>, c: u8)
    ensures
        depth(s.push(c)) == depth(s) + if c == 91 {
            1int
        } else if c == 93 {
            -1int
        } else {
            0int
        },
{
    assert(s.push(c).drop_last() == s);
}

proof fn lemma_frames_add(fs: Seq<Seq<BFRaw>>, x: BFRaw)
    requires
        fs.len() >= 1,
    ensures
        frames_text(fs.update(fs.len() - 1, fs.last().push(x))) == frames_text(fs) + token(x),
{
    let gs = fs.update(fs.len() - 1, fs.last().push(x));
    lemma_unparse_push(fs.last(), x);
    if fs.len() > 1 {
        assert(gs.drop_last() =~= fs.drop_last());
        assert(frames_text(gs) == frames_text(fs.drop_last()) + seq![91u8] + unparse(fs.last().push(x)));
        assert(frames_text(fs.drop_last()) + seq![91u8] + (unparse(fs.last()) + token(x)) =~= frames_text(fs) + token(x));
    }
}

proof fn lemma_frames_open(fs: Seq<Seq<BFRaw>>)
    requires
        fs.len() >= 1,
    ensures
        frames_text(fs.push(Seq::empty())) == frames_text(fs).push(91u8),
{
    assert(fs.push(Seq::empty()).drop_last() == fs);
    assert(unparse(Seq::<BFRaw>::empty()) == Seq::<u8>::empty());
    assert(frames_text(fs) + seq![91u8] + Seq::<u8>::empty() =~= frames_text(fs).push(91u8));
}

proof fn lemma_frames_close(fs: Seq<Seq<BFRaw>>, f: Vec<BFRaw>)
    requires
        fs.len() >= 2,
        fs.last() == f@,
    ensures
        ({
            let gs = fs.drop_last();
            frames_text(gs.update(gs.len() - 1, gs.last().push(BFRaw::Loop(f)))) == frames_text(fs).push(93u8)
        }),
{
    let gs = fs.drop_last();
    lemma_frames_add(gs, BFRaw::Loop(f));
    assert(token(BFRaw::Loop(f)) == seq![91u8] + unparse(f@) + seq![93u8]);
    assert(frames_text(fs) == frames_text(gs) + seq![91u8] + unparse(f@));
    assert(frames_text(gs) + (seq![91u8] + unparse(f@) + seq![93u8]) =~= (frames_text(gs) + seq![91u8] + unparse(f@)).push(93u8));
}

proof fn lemma_still_open(c: Seq<u8>, x: u8)
    requires
        !closes_unopened(c),
        depth(c.push(x)) >= 0,
    ensures
        !closes_unopened(c.push(x)),
{
    assert forall|k: int| 0 <= k <= c.len() + 1 implies #[trigger] depth(c.push(x).subrange(0, k)) >= 0 by {
        if k <= c.len() {
            assert(c.push(x).subrange(0, k) =~= c.subrange(0, k));
        } else {
            assert(c.push(x).subrange(0, k) =~= c.push(x));
        }
    }
}

proof fn lemma_empty_open()
    ensures
        !closes_unopened(Seq::<u8>::empty()),
{
    assert forall|k: int| 0 <= k <= 0 implies #[trigger] depth(Seq::<u8>::empty().subrange(0, k)) >= 0 by {
        assert(Seq::<u8>::empty().subrange(0, k) =~= Seq::<u8>::empty());
    }
}

/// Parses a program: its command bytes, with each `[` matched to a later
/// `]`, as a tree of instructions; all other bytes are comments.
pub fn parse_program(src: &[u8]) -> (r: Result<Vec<BFRaw>, ParseError>)
    ensures
        r is Ok <==> balanced(commands(src@)),
        r matches Ok(is) ==> unparse(is@) == commands(src@),
        r == Err::<Vec<BFRaw>, ParseError>(ParseError::UnmatchedClose) <==> closes_unopened(commands(src@)),
{
    let mut stack: Vec<Vec<BFRaw>> = Vec::new();
    stack.push(Vec::new());
    let mut i: usize = 0;
    proof {
        assert(src@.subrange(0, 0) =~= Seq::<u8>::empty());
        assert(frames_view(stack@) =~= seq![Seq::<BFRaw>::empty()]);
        lemma_empty_open();
    }
    while i < src.len()
        invariant
            i <= src@.len(),
            stack@.len() >= 1,
            frames_text(frames_view(stack@)) == commands(src@.subrange(0, i as int)),
            depth(commands(src@.subrange(0, i as int))) == stack@.len() - 1,
            !closes_unopened(commands(src@.subrange(0, i as int))),
        decreases src@.len() - i,
    {
        let c = src[i];
        let ghost before = commands(src@.subrange(0, i as int));
        let ghost fs = frames_view(stack@);
        proof {
            lemma_prefix_commands(src@, i as int);
            lemma_depth_push(before, c);
        }
        if c == 91 {
            stack.push(Vec::new());
            proof {
                assert(frames_view(stack@) =~= fs.push(Seq::empty()));
                lemma_frames_open(fs);
                lemma_still_open(before, c);
            }
        } else if c == 93 {
            if stack.len() == 1 {
                proof {
                    let after = before.push(c);
                    assert(after.subrange(0, after.len() as int) =~= after);
                    assert(depth(after.subrange(0, after.len() as int)) < 0);
                    lemma_commands_prefix(src@, i + 1);
                    let all = commands(src@);
                    assert(all.subrange(0, after.len() as int) == after);
                    assert(depth(all.subrange(0, after.len() as int)) < 0);
                }
                return Err(ParseError::UnmatchedClose);
            }
            let f = stack.pop().unwrap();
            let mut parent = stack.pop().unwrap();
            parent.push(BFRaw::Loop(f));
            stack.push(parent);
            proof {
                let gs = fs.drop_last();
                assert(frames_view(stack@) =~= gs.update(gs.len() - 1, gs.last().push(BFRaw::Loop(f))));
                lemma_frames_close(fs, f);
                lemma_still_open(before, c);
            }
        } else if c == 60 || c == 62 || c == 43 || c == 45 || c == 44 || c == 46 {
            let x = if c == 60 {
                BFRaw::Lft
            } else if c == 62 {
                BFRaw::Rgh
            } else if c == 43 {
                BFRaw::Inc
            } else if c == 45 {
                BFRaw::Dec
            } else if c == 44 {
                BFRaw::Ask
            } else {
                BFRaw::Put
            };
            let mut top = stack.pop().unwrap();
            top.push(x);
            stack.push(top);
            proof {
                assert(frames_view(stack@) =~= fs.update(fs.len() - 1, fs.last().push(x)));
                lemma_frames_add(fs, x);
                assert(token(x) == seq![c]);
                assert(before + seq![c] =~= before.push(c));
                lemma_still_open(before, c);
            }
        }
        i = i + 1;
    }
    proof {
        assert(src@.subrange(0, src@.len() as int) =~= src@);
    }
    if stack.len() > 1 {
        return Err(ParseError::Unclosed);
    }
    let program = stack.pop().unwrap();
    proof {
        assert(frames_text(frames_view(seq![program])) == unparse(program@));
    }
    Ok(program)
}

/// A REPL command.
#[derive(Debug, Clone, Copy, PartialEq, Eq, Structural)]
pub enum BFCMD {
    /// `:q`
    Exit,
    /// `:r N`: show the cell at offset `N`.
    Read(i32),
    /// `:c`: set every cell to zero.
    Clear,
    /// `:h`
    Help,
    /// `:f`: show the head.
    Find,
    /// `:m N`: move the head to offset `N`.
    Move(i32),
}

/// Why a command line does not parse.
#[derive(Debug, Clone, Copy, PartialEq, Eq, Structural)]
pub enum CommandError {
    /// Not one of `:q`, `:r`, `:c`, `:h`, `:f`, `:m`.
    Unknown,
    /// `:r` or `:m` without a decimal `i32` after it.
    Number,
}

/// ASCII white space.
pub open spec fn is_space(c: u8) -> bool {
    c == 32 || (9 <= c && c <= 13)
}

/// `s` without leading white space.
pub open spec fn trim_start(s: Seq<u8>) -> Seq<u8>
    decreases s.len(),
{
    if s.len() > 0 && is_space(s[0]) {
        trim_start(s.drop_first())
    } else {
        s
    }
}

/// `s` without trailing white space.
pub open spec fn trim_end(s: Seq<u8>) -> Seq<u8>
    decreases s.len(),
{
    if s.len() > 0 && is_space(s.last()) {
        trim_end(s.drop_last())
    } else {
        s
    }
}

/// A decimal digit.
pub open spec fn is_digit(c: u8) -> bool {
    48 <= c && c <= 57
}

/// The value of a string of decimal digits.
pub open spec fn digits_value(s: Seq<u8>) -> int
    decreases s.len(),
{
    if s.len() == 0 {
        0
    } else {
        digits_value(s.drop_last()) * 10 + (s.last() - 48)
    }
}

/// `t` without a leading sign.
pub open spec fn unsigned(t: Seq<u8>) -> Seq<u8> {
    if t.len() > 0 && (t[0] == 45 || t[0] == 43) {
        t.drop_first()
    } else {
        t
    }
}

/// Every byte of `s` is a decimal digit.
pub open spec fn all_digits(s: Seq<u8>) -> bool {
    forall|i: int| 0 <= i < s.len() ==> is_digit(#[trigger] s[i])
}

/// The signed decimal number that `s` spells, once white space is trimmed
/// from both ends, where it fits in an `i32`.
pub open spec fn number(s: Seq<u8>) -> Option<i32> {
    let t = trim_end(trim_start(s));
    let body = unsigned(t);
    let v = if t.len() > 0 && t[0] == 45 {
        -digits_value(body)
    } else {
        digits_value(body)
    };
    if body.len() > 0 && all_digits(body) && i32::MIN <= v <= i32::MAX {
        Some(v as i32)
    } else {
        None
    }
}

/// The command that a line beginning with `:` spells.
pub open spec fn command_of(s: Seq<u8>) -> Result<BFCMD, CommandError> {
    if s.len() < 2 || s[0] != 58 {
        Err(CommandError::Unknown)
    } else if s[1] == 113 {
        Ok(BFCMD::Exit)
    } else if s[1] == 99 {
        Ok(BFCMD::Clear)
    } else if s[1] == 104 {
        Ok(BFCMD::Help)
    } else if s[1] == 102 {
        Ok(BFCMD::Find)
    } else if s[1] == 114 || s[1] == 109 {
        match number(s.subrange(2, s.len() as int)) {
            Some(n) => if s[1] == 114 {
                Ok(BFCMD::Read(n))
            } else {
                Ok(BFCMD::Move(n))
            },
            None => Err(CommandError::Number),
        }
    } else {
        Err(CommandError::Unknown)
    }
}

/// The decimal number in `s[from..]`, as `number` defines it.
fn parse_number(s: &[u8], from: usize) -> (r: Option<i32>)
    requires
        from <= s@.len(),
    ensures
        r == number(s@.subrange(from as int, s@.len() as int)),
{
    let ghost whole = s@.subrange(from as int, s@.len() as int);
    let mut a: usize = from;
    let mut b: usize = s.len();
    proof {
        assert(s@.subrange(a as int, b as int) == whole);
    }
    while a < b && (s[a] == 32 || (9 <= s[a] && s[a] <= 13))
        invariant
            from <= a <= b,
            b == s@.len(),
            trim_start(whole) == trim_start(s@.subrange(a as int, b as int)),
        decreases b - a,
    {
        proof {
            assert(s@.subrange(a as int, b as int).drop_first() =~= s@.subrange(a + 1, b as int));
        }
        a = a + 1;
    }
    let ghost started = s@.subrange(a as int, b as int);
    proof {
        assert(trim_start(started) == started);
    }
    while a < b && (s[b - 1] == 32 || (9 <= s[b - 1] && s[b - 1] <= 13))
        invariant
            from <= a <= b <= s@.len(),
            trim_start(whole) == started,
            trim_end(started) == trim_end(s@.subrange(a as int, b as int)),
        decreases b - a,
    {
        proof {
            assert(s@.subrange(a as int, b as int).drop_last() =~= s@.subrange(a as int, b - 1));
        }
        b = b - 1;
    }
    let ghost t = s@.subrange(a as int, b as int);
    proof {
        assert(trim_end(t) == t);
        assert(trim_end(trim_start(whole)) == t);
    }
    let neg = a < b && s[a] == 45;
    if a < b && (s[a] == 45 || s[a] == 43) {
        a = a + 1;
    }
    let ghost body = s@.subrange(a as int, b as int);
    proof {
        if t.len() > 0 && (t[0] == 45 || t[0] == 43) {
            assert(body =~= t.drop_first());
        } else {
            assert(body =~= t);
        }
    }
    if a == b {
        return None;
    }
    let start = a;
    let mut v: i64 = 0;
    proof {
        assert(s@.subrange(start as int, start as int) =~= Seq::<u8>::empty());
    }
    while a < b
        invariant
            start <= a <= b <= s@.len(),
            body == s@.subrange(start as int, b as int),
            whole == s@.subrange(from as int, s@.len() as int),
            trim_end(trim_start(whole)) == t,
            neg == (t.len() > 0 && t[0] == 45),
            body == unsigned(t),
            v == digits_value(s@.subrange(start as int, a as int)),
            0 <= v <= 2147483648,
            forall|i: int| start <= i < a ==> is_digit(#[trigger] s@[i]),
        decreases b - a,
    {
        let c = s[a];
        if c < 48 || c > 57 {
            proof {
                assert(body[a - start] == s@[a as int]);
                assert(!is_digit(body[a - start]));
                assert(!all_digits(body));
                assert(number(whole) is None);
            }
            return None;
        }
        proof {
            assert(s@.subrange(start as int, a + 1).drop_last() =~= s@.subrange(start as int, a as int));
        }
        let nv = v * 10 + (c - 48) as i64;
        if nv > 2147483648 {
            proof {
                assert(body.subrange(0, (a + 1 - start) as int) =~= s@.subrange(start as int, a + 1));
                if all_digits(body) {
                    lemma_digits_mono(body, (a + 1 - start) as int);
                    assert(digits_value(body) > 2147483648);
                }
                assert(number(whole) is None);
            }
            return None;
        }
        v = nv;
        a = a + 1;
    }
    proof {
        assert(s@.subrange(start as int, a as int) == body);
        assert forall|i: int| 0 <= i < body.len() implies is_digit(#[trigger] body[i]) by {
            assert(body[i] == s@[start + i]);
        }
        assert(all_digits(body));
    }
    if neg {
        if v > 2147483648 {
            return None;
        }
        Some((-v) as i32)
    } else {
        if v > 2147483647 {
            return None;
        }
        Some(v as i32)
    }
}

proof fn lemma_digits_nonneg(s: Seq<u8>)
    requires
        forall|i: int| 0 <= i < s.len() ==> is_digit(#[trigger] s[i]),
    ensures
        digits_value(s) >= 0,
    decreases s.len(),
{
    if s.len() > 0 {
        lemma_digits_nonneg(s.drop_last());
    }
}

proof fn lemma_digits_mono(s: Seq<u8>, k: int)
    requires
        0 <= k <= s.len(),
        forall|i: int| 0 <= i < s.len() ==> is_digit(#[trigger] s[i]),
    ensures
        digits_value(s) >= digits_value(s.subrange(0, k)),
    decreases s.len() - k,
{
    if k == s.len() {
        assert(s.subrange(0, k) =~= s);
    } else {
        lemma_digits_mono(s, k + 1);
        assert(s.subrange(0, k + 1).drop_last() =~= s.subrange(0, k));
        lemma_digits_nonneg(s.subrange(0, k));
    }
}

/// Parses a REPL command line such as `:q` or `:r -3`.
pub fn parse_bfcmd(line: &[u8]) -> (r: Result<BFCMD, CommandError>)
    ensures
        r == command_of(line@),
{
    if line.len() < 2 || line[0] != 58 {
        return Err(CommandError::Unknown);
    }
    let c = line[1];
    if c == 113 {
        Ok(BFCMD::Exit)
    } else if c == 99 {
        Ok(BFCMD::Clear)
    } else if c == 104 {
        Ok(BFCMD::Help)
    } else if c == 102 {
        Ok(BFCMD::Find)
    } else if c == 114 || c == 109 {
        match parse_number(line, 2) {
            Some(n) => if c == 114 {
                Ok(BFCMD::Read(n))
            } else {
                Ok(BFCMD::Move(n))
            },
            None => Err(CommandError::Number),
        }
    } else {
        Err(CommandError::Unknown)
    }
}

} // verus!
