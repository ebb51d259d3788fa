use vstd::prelude::*;

use crate::shared::Error;
use crate::shared::Instruction;

verus! {

/// The instruction that a source byte stands for, with brackets unresolved;
/// `None` for a byte that is no command.
pub open spec fn decode(b: u8) -> Option<Instruction> {
    if b == 62u8 {
        Some(Instruction::Right)
    } else if b == 60u8 {
        Some(Instruction::Left)
    } else if b == 43u8 {
        Some(Instruction::Increment)
    } else if b == 45u8 {
        Some(Instruction::Decrement)
    } else if b == 46u8 {
        Some(Instruction::Output)
    } else if b == 44u8 {
        Some(Instruction::Input)
    } else if b == 91u8 {
        Some(Instruction::Jump(None))
    } else if b == 93u8 {
        Some(Instruction::Back(None))
    } else {
        None
    }
}

/// The commands of a source in order, every other byte left out.
pub open spec fn commands(bytes: Seq<u8>) -> Seq<Instruction>
    decreases bytes.len(),
{
    if bytes.len() == 0 {
        Seq::empty()
    } else {
        let rest = commands(bytes.drop_last());
        match decode(bytes.last()) {
            Some(i) => rest.push(i),
            None => rest,
        }
    }
}

/// An instruction with its bracket target erased.
pub open spec fn unresolved(i: Instruction) -> Instruction {
    match i {
        Instruction::Jump(_) => Instruction::Jump(None),
        Instruction::Back(_) => Instruction::Back(None),
        _ => i,
    }
}

/// How an instruction changes the bracket nesting depth.
pub open spec fn delta(i: Instruction) -> int {
    match i {
        Instruction::Jump(_) => 1,
        Instruction::Back(_) => -1,
        _ => 0,
    }
}

/// Opened minus closed brackets in `s`.
pub open spec fn depth(s: Seq<Instruction>) -> int
    decreases s.len(),
{
    if s.len() == 0 {
        0
    } else {
        depth(s.drop_last()) + delta(s.last())
    }
}

/// The nesting depth before the instruction at index `k`.
pub open spec fn depth_at(s: Seq<Instruction>, k: int) -> int {
    depth(s.take(k))
}

/// Some prefix of `s` closes more brackets than it opens.
pub open spec fn closes_unopened(s: Seq<Instruction>) -> bool {
    exists|m: int| 0 <= m <= s.len() && #[trigger] depth_at(s, m) < 0
}

/// The part of `s` from index `a` on is balanced: no prefix of it closes more
/// than it opens, and the whole of it closes all it opens.
pub open spec fn balanced_from(s: Seq<Instruction>, a: int) -> bool {
    &&& forall|m: int| a <= m <= s.len() ==> #[trigger] depth_at(s, m) >= depth_at(s, a)
    &&& depth_at(s, s.len() as int) == depth_at(s, a)
}

/// Every bracket of `s` has its partner, correctly nested.
pub open spec fn balanced(s: Seq<Instruction>) -> bool {
    balanced_from(s, 0)
}

/// `p` holds the commands `c`, index for index, bracket targets aside.
pub open spec fn has_shape(p: Seq<Instruction>, c: Seq<Instruction>) -> bool {
    &&& p.len() == c.len()
    &&& forall|k: int| 0 <= k < p.len() ==> unresolved(#[trigger] p[k]) == c[k]
}

/// The target of a resolved `Jump`.
pub open spec fn jump_target(i: Instruction) -> Option<int> {
    match i {
        Instruction::Jump(Some(t)) => Some(t as int),
        _ => None,
    }
}

/// Each `Jump` and `Back` of `p` names the other half of its pair: a `Jump`
/// a later `Back` that names it back, a `Back` an earlier `Jump` that names it.
pub open spec fn cross_linked(p: Seq<Instruction>) -> bool {
    forall|i: int|
        0 <= i < p.len() ==> match #[trigger] p[i] {
            Instruction::Jump(Some(j)) => i < j < p.len() && p[j as int] == Instruction::Back(
                Some(i as usize),
            ),
            Instruction::Back(Some(j)) => j < i && p[j as int] == Instruction::Jump(
                Some(i as usize),
            ),
            Instruction::Jump(None) => false,
            Instruction::Back(None) => false,
            _ => true,
        }
}

/// No two bracket pairs of `p` cross: a pair that opens inside another also
/// closes inside it.
pub open spec fn nested(p: Seq<Instruction>) -> bool {
    forall|i: int, k: int|
        0 <= i < k < p.len() && (#[trigger] jump_target(p[i])) is Some && (#[trigger] jump_target(
            p[k],
        )) is Some && k < jump_target(p[i])->0 ==> jump_target(p[k])->0 < jump_target(p[i])->0
}

/// The `]` at index `j` of `c` closes the `[` at index `i`: `j` is the first
/// point after `i` where the nesting depth falls back to what it was before `i`.
pub open spec fn closes(c: Seq<Instruction>, i: int, j: int) -> bool {
    &&& 0 <= i < j < c.len()
    &&& depth_at(c, j + 1) == depth_at(c, i)
    &&& forall|m: int| i < m <= j ==> #[trigger] depth_at(c, m) > depth_at(c, i)
}

/// Every `Jump` of `p` names the `Back` that closes it in `c`.
pub open spec fn jumps_close(p: Seq<Instruction>, c: Seq<Instruction>) -> bool {
    forall|i: int|
        0 <= i < p.len() && (#[trigger] jump_target(p[i])) is Some ==> closes(
            c,
            i,
            jump_target(p[i])->0,
        )
}

/// `p` is the program that the commands `c` stand for: the same commands,
/// each bracket naming its partner.
pub open spec fn resolves(p: Seq<Instruction>, c: Seq<Instruction>) -> bool {
    &&& has_shape(p, c)
    &&& cross_linked(p)
    &&& nested(p)
    &&& jumps_close(p, c)
}

/// The depth of a prefix one longer than another.
proof fn lemma_depth_step(s: Seq<Instruction>, k: int)
    requires
        0 <= k < s.len(),
    ensures
        depth_at(s, k + 1) == depth_at(s, k) + delta(s[k]),
{
    assert(s.take(k + 1).drop_last() =~= s.take(k));
}

/// Appending an instruction keeps the depth of every earlier prefix.
proof fn lemma_depth_push(s: Seq<Instruction>, x: Instruction)
    ensures
        forall|m: int| 0 <= m <= s.len() ==> #[trigger] depth_at(s.push(x), m) == depth_at(s, m),
        depth_at(s.push(x), s.len() as int + 1) == depth_at(s, s.len() as int) + delta(x),
{
    assert forall|m: int| 0 <= m <= s.len() implies #[trigger] depth_at(s.push(x), m) == depth_at(
        s,
        m,
    ) by {
        assert(s.push(x).take(m) =~= s.take(m));
    }
    assert(s.push(x).take(s.len() as int + 1) =~= s.push(x));
    assert(s.take(s.len() as int) =~= s);
    assert(s.push(x).drop_last() =~= s);
    assert(depth(s.push(x)) == depth(s) + delta(x));
}

/// The commands of a prefix of the source are a prefix of its commands.
proof fn lemma_commands_prefix(bytes: Seq<u8>, i: int)
    requires
        0 <= i <= bytes.len(),
    ensures
        commands(bytes.take(i)).len() <= commands(bytes).len(),
        commands(bytes.take(i)) == commands(bytes).take(commands(bytes.take(i)).len() as int),
    decreases bytes.len() - i,
{
    if i == bytes.len() {
        assert(bytes.take(i) =~= bytes);
        assert(commands(bytes).take(commands(bytes).len() as int) =~= commands(bytes));
    } else {
        lemma_commands_prefix(bytes, i + 1);
        assert(bytes.take(i + 1).drop_last() =~= bytes.take(i));
        let a = commands(bytes.take(i));
        let b = commands(bytes.take(i + 1));
        assert(a =~= b.take(a.len() as int));
        assert(a =~= commands(bytes).take(a.len() as int));
    }
}

/// A source has at most as many commands as bytes.
proof fn lemma_commands_len(bytes: Seq<u8>)
    ensures
        commands(bytes).len() <= bytes.len(),
    decreases bytes.len(),
{
    if bytes.len() > 0 {
        lemma_commands_len(bytes.drop_last());
    }
}

/// The commands of two sources laid end to end are those of the first
/// followed by those of the second.
pub proof fn lemma_commands_concat(a: Seq<u8>, b: Seq<u8>)
    ensures
        commands(a + b) == commands(a) + commands(b),
    decreases b.len(),
{
    if b.len() == 0 {
        assert(a + b =~= a);
        assert(commands(a) + commands(b) =~= commands(a));
    } else {
        lemma_commands_concat(a, b.drop_last());
        assert((a + b).drop_last() =~= a + b.drop_last());
        assert((a + b).last() == b.last());
        match decode(b.last()) {
            Some(i) => {
                assert(commands(a) + commands(b.drop_last()).push(i) =~= (commands(a) + commands(
                    b.drop_last(),
                )).push(i));
            },
            None => {},
        }
    }
}

/// A byte that is no command, put anywhere in a source, inside a loop or
/// outside, leaves its commands as they were: the instructions that
/// preprocessing yields, their count, their bracket pairs and any error are
/// all stated over these commands alone.
pub proof fn lemma_comment_ignored(bytes: Seq<u8>, k: int, b: u8)
    requires
        0 <= k <= bytes.len(),
        decode(b) is None,
    ensures
        commands(bytes.insert(k, b)) == commands(bytes),
{
    let front = bytes.take(k);
    let back = bytes.skip(k);
    assert(bytes.insert(k, b) =~= (front + seq![b]) + back);
    assert(bytes =~= front + back);
    lemma_commands_concat(front + seq![b], back);
    lemma_commands_concat(front, seq![b]);
    lemma_commands_concat(front, back);
    assert(seq![b].drop_last() =~= Seq::<u8>::empty());
    assert(seq![b].last() == b);
    assert(commands(Seq::<u8>::empty()) == Seq::<Instruction>::empty());
    assert(commands(seq![b]) =~= Seq::<Instruction>::empty());
    assert(commands(front) + Seq::<Instruction>::empty() =~= commands(front));
}

/// A `[` is closed by one `]` at most.
proof fn lemma_closes_one_back(c: Seq<Instruction>, i: int, j1: int, j2: int)
    requires
        closes(c, i, j1),
        closes(c, i, j2),
    ensures
        j1 == j2,
{
    if j1 < j2 {
        assert(depth_at(c, j1 + 1) > depth_at(c, i));
    } else if j2 < j1 {
        assert(depth_at(c, j2 + 1) > depth_at(c, i));
    }
}

/// A `]` closes one `[` at most.
proof fn lemma_closes_one_jump(c: Seq<Instruction>, i1: int, i2: int, j: int)
    requires
        closes(c, i1, j),
        closes(c, i2, j),
    ensures
        i1 == i2,
{
    if i1 < i2 {
        assert(depth_at(c, i2) > depth_at(c, i1));
    } else if i2 < i1 {
        assert(depth_at(c, i1) > depth_at(c, i2));
    }
}

/// A sequence of commands stands for one program at most.
pub proof fn lemma_resolves_unique(c: Seq<Instruction>, p: Seq<Instruction>, q: Seq<Instruction>)
    requires
        resolves(p, c),
        resolves(q, c),
        c.len() <= usize::MAX,
    ensures
        p == q,
{
    assert forall|k: int| 0 <= k < p.len() implies p[k] == q[k] by {
        assert(unresolved(p[k]) == c[k]);
        assert(unresolved(q[k]) == c[k]);
        match p[k] {
            Instruction::Jump(Some(j1)) => {
                let j2 = jump_target(q[k])->0;
                assert(jump_target(p[k]) == Some(j1 as int));
                assert(closes(c, k, j1 as int));
                assert(closes(c, k, j2));
                lemma_closes_one_back(c, k, j1 as int, j2);
            },
            Instruction::Back(Some(i1)) => {
                match q[k] {
                    Instruction::Back(Some(i2)) => {
                        assert(jump_target(p[i1 as int]) == Some(k));
                        assert(jump_target(q[i2 as int]) == Some(k));
                        assert(closes(c, i1 as int, k));
                        assert(closes(c, i2 as int, k));
                        lemma_closes_one_jump(c, i1 as int, i2 as int, k);
                    },
                    _ => {},
                }
            },
            _ => {},
        }
    }
    assert(p =~= q);
}

/// A byte that is no command, put anywhere in a source, inside a loop or
/// outside, leaves the program that the source stands for as it was: the
/// same instructions, as many, with the same bracket targets.
pub proof fn lemma_comment_keeps_program(
    bytes: Seq<u8>,
    k: int,
    b: u8,
    p: Seq<Instruction>,
    q: Seq<Instruction>,
)
    requires
        0 <= k <= bytes.len(),
        decode(b) is None,
        resolves(p, commands(bytes)),
        resolves(q, commands(bytes.insert(k, b))),
        p.len() <= usize::MAX,
    ensures
        p == q,
{
    lemma_comment_ignored(bytes, k, b);
    lemma_resolves_unique(commands(bytes), p, q);
}

/// Turns source bytes into a program whose loop brackets are resolved into
/// the indices of their partners.
pub struct Preprocessor {
    pub bytes: Vec<u8>,
    pub stack: Vec<usize>,
    pub instructions: Vec<Instruction>,
}

impl Preprocessor {
    /// The source that this preprocessor works on.
    pub open spec fn source(&self) -> Seq<u8> {
        self.bytes@
    }

    /// Nothing has been preprocessed yet.
    pub open spec fn fresh(&self) -> bool {
        self.stack@.len() == 0 && self.instructions@.len() == 0
    }

    /// What holds after the commands `c` have been read: `instructions` holds
    /// them, the stack holds the indices of the `Jump`s still open, innermost
    /// last, and every other pair is resolved and nested.
    spec fn scanned(&self, c: Seq<Instruction>) -> bool {
        let p = self.instructions@;
        let st = self.stack@;
        &&& has_shape(p, c)
        &&& forall|m: int| 0 <= m <= c.len() ==> #[trigger] depth_at(c, m) >= 0
        &&& depth_at(c, c.len() as int) == st.len()
        &&& forall|t: int|
            0 <= t < st.len() ==> {
                &&& #[trigger] st[t] < p.len()
                &&& p[st[t] as int] == Instruction::Jump(None)
                &&& depth_at(c, st[t] as int) == t
            }
        &&& forall|t: int, m: int|
            #![trigger st[t], depth_at(c, m)]
            0 <= t < st.len() && st[t] < m <= c.len() ==> depth_at(c, m) > t
        &&& forall|k: int|
            0 <= k < p.len() && #[trigger] p[k] == Instruction::Jump(None) ==> {
                &&& depth_at(c, k) < st.len()
                &&& st[depth_at(c, k)] == k
            }
        &&& forall|i: int|
            0 <= i < p.len() ==> match #[trigger] p[i] {
                Instruction::Jump(Some(j)) => i < j < p.len() && p[j as int] == Instruction::Back(
                    Some(i as usize),
                ),
                Instruction::Back(Some(j)) => j < i && p[j as int] == Instruction::Jump(
                    Some(i as usize),
                ),
                Instruction::Back(None) => false,
                _ => true,
            }
        &&& nested(p)
        &&& jumps_close(p, c)
        &&& forall|i: int, t: int|
            0 <= i < p.len() && 0 <= t < st.len() && (#[trigger] jump_target(p[i])) is Some && i
                < #[trigger] st[t] ==> jump_target(p[i])->0 < st[t]
    }

    pub fn new() -> (r: Self)
        ensures
            r.fresh(),
            r.source() == Seq::<u8>::empty(),
            r.instructions@ == Seq::<Instruction>::empty(),
    {
        Preprocessor { bytes: Vec::new(), stack: Vec::new(), instructions: Vec::new() }
    }

    /// A preprocessor for the source `bytes`.
    pub fn with_bytes(bytes: Vec<u8>) -> (r: Self)
        ensures
            r.fresh(),
            r.source() == bytes@,
            r.instructions@ == Seq::<Instruction>::empty(),
    {
        Preprocessor { bytes, stack: Vec::new(), instructions: Vec::new() }
    }

    /// Preprocesses the source: fails exactly when its brackets do not
    /// balance, else fills `instructions` with its commands, each bracket
    /// holding the index of its partner.
    pub fn process(&mut self) -> (r: Result<(), Error>)
        requires
            old(self).fresh(),
        ensures
            final(self).bytes == old(self).bytes,
            ({
                let c = commands(old(self).source());
                &&& r is Ok <==> balanced(c)
                &&& match r {
                    Ok(()) => {
                        &&& resolves(final(self).instructions@, c)
                    },
                    Err(Error::UnmatchedCloseBracket) => closes_unopened(c),
                    Err(Error::UnmatchedOpenBracket(p)) => {
                        &&& !closes_unopened(c)
                        &&& p < c.len()
                        &&& c[p as int] == Instruction::Jump(None)
                        &&& balanced_from(c, p + 1)
                    },
                    Err(_) => false,
                }
            }),
    {
        let ghost src = self.bytes@;
        proof {
            assert(src.take(0) =~= Seq::<u8>::empty());
            assert(Seq::<Instruction>::empty().take(0) =~= Seq::<Instruction>::empty());
        }
        let mut index: usize = 0;
        while index < self.bytes.len()
            invariant
                index <= self.bytes@.len(),
                self.bytes == old(self).bytes,
                self.bytes@ == src,
                self.scanned(commands(src.take(index as int))),
            decreases self.bytes@.len() - index,
        {
            let byte = self.bytes[index];
            let ghost c = commands(src.take(index as int));
            proof {
                assert(src.take(index + 1).drop_last() =~= src.take(index as int));
                lemma_commands_len(src.take(index as int));
            }
            let res = self.match_byte(byte, Ghost(c));
            if res.is_err() {
                proof {
                    let c1 = commands(src.take(index + 1));
                    let all = commands(src);
                    lemma_commands_prefix(src, index + 1);
                    assert(all.take(c1.len() as int) =~= c1.take(c1.len() as int));
                    assert(depth_at(all, c1.len() as int) < 0);
                }
                return res;
            }
            index += 1;
        }
        proof {
            assert(src.take(index as int) =~= src);
        }
        let ghost c = commands(src);
        proof {
            assert(c.take(0) =~= Seq::<Instruction>::empty());
            assert(depth_at(c, 0) == 0);
        }
        let ghost st0 = self.stack@;
        match self.stack.pop() {
            None => {
                proof {
                    let p = self.instructions@;
                    assert forall|k: int| 0 <= k < p.len() implies #[trigger] p[k]
                        != Instruction::Jump(None) by {
                        if p[k] == Instruction::Jump(None) {
                            assert(depth_at(c, k) >= 0);
                        }
                    }
                }
                Ok(())
            },
            Some(top) => {
                proof {
                    let l = self.stack@.len() as int;
                    lemma_depth_step(c, top as int);
                    assert(depth_at(c, top as int) == l);
                    assert forall|m: int| top + 1 <= m <= c.len() implies #[trigger] depth_at(c, m)
                        >= depth_at(c, top + 1) by {
                        assert(st0[l] == top);
                    }
                }
                Err(Error::UnmatchedOpenBracket(top))
            },
        }
    }

    /// Reads one source byte: a command is appended, a bracket resolved,
    /// any other byte ignored. Fails on a `]` with no open `[`.
    fn match_byte(&mut self, byte: u8, Ghost(c): Ghost<Seq<Instruction>>) -> (r: Result<(), Error>)
        requires
            old(self).scanned(c),
            old(self).instructions@.len() < usize::MAX,
        ensures
            final(self).bytes == old(self).bytes,
            match r {
                Ok(()) => final(self).scanned(
                    match decode(byte) {
                        Some(i) => c.push(i),
                        None => c,
                    },
                ),
                Err(e) => {
                    &&& e == Error::UnmatchedCloseBracket
                    &&& decode(byte) == Some(Instruction::Back(None))
                    &&& depth_at(c.push(Instruction::Back(None)), c.len() as int + 1) < 0
                },
            },
    {
        if byte == 62 {
            // '>'
            self.append(Instruction::Right, Ghost(c));
        } else if byte == 60 {
            // '<'
            self.append(Instruction::Left, Ghost(c));
        } else if byte == 43 {
            // '+'
            self.append(Instruction::Increment, Ghost(c));
        } else if byte == 45 {
            // '-'
            self.append(Instruction::Decrement, Ghost(c));
        } else if byte == 46 {
            // '.'
            self.append(Instruction::Output, Ghost(c));
        } else if byte == 44 {
            // ','
            self.append(Instruction::Input, Ghost(c));
        } else if byte == 91 {
            // '['
            self.jump(Ghost(c));
        } else if byte == 93 {
            // ']'
            return self.back(Ghost(c));
        }
        Ok(())
    }

    /// Appends a command that is no bracket.
    fn append(&mut self, i: Instruction, Ghost(c): Ghost<Seq<Instruction>>)
        requires
            old(self).scanned(c),
            delta(i) == 0,
            unresolved(i) == i,
        ensures
            final(self).bytes == old(self).bytes,
            final(self).scanned(c.push(i)),
    {
        self.instructions.push(i);
        proof {
            lemma_depth_push(c, i);
            let p = self.instructions@;
            let st = self.stack@;
            let c1 = c.push(i);
            assert forall|i2: int, k: int|
                0 <= i2 < k < p.len() && (#[trigger] jump_target(p[i2])) is Some
                    && (#[trigger] jump_target(p[k])) is Some && k < jump_target(p[i2])->0
                implies jump_target(p[k])->0 < jump_target(p[i2])->0 by {
                assert(p[i2] == old(self).instructions@[i2]);
                assert(p[k] == old(self).instructions@[k]);
            }
            assert forall|t: int, m: int|
                #![trigger st[t], depth_at(c1, m)]
                0 <= t < st.len() && st[t] < m <= c1.len() implies depth_at(c1, m) > t by {
                if m == c1.len() {
                    assert(depth_at(c, c.len() as int) > t);
                }
            }
        }
    }

    /// Opens a loop: remembers where its `Jump` stands and appends it
    /// unresolved.
    fn jump(&mut self, Ghost(c): Ghost<Seq<Instruction>>)
        requires
            old(self).scanned(c),
        ensures
            final(self).bytes == old(self).bytes,
            final(self).scanned(c.push(Instruction::Jump(None))),
    {
        self.stack.push(self.instructions.len());
        self.instructions.push(Instruction::Jump(None));
        proof {
            let x = Instruction::Jump(None);
            lemma_depth_push(c, x);
            let p = self.instructions@;
            let st = self.stack@;
            let c1 = c.push(x);
            assert forall|i2: int, k: int|
                0 <= i2 < k < p.len() && (#[trigger] jump_target(p[i2])) is Some
                    && (#[trigger] jump_target(p[k])) is Some && k < jump_target(p[i2])->0
                implies jump_target(p[k])->0 < jump_target(p[i2])->0 by {
                assert(p[i2] == old(self).instructions@[i2]);
                assert(p[k] == old(self).instructions@[k]);
            }
            assert forall|t: int, m: int|
                #![trigger st[t], depth_at(c1, m)]
                0 <= t < st.len() && st[t] < m <= c1.len() implies depth_at(c1, m) > t by {
                if m == c1.len() && t < st.len() - 1 {
                    assert(depth_at(c, c.len() as int) > t);
                }
            }
            assert forall|i2: int, t: int|
                0 <= i2 < p.len() && 0 <= t < st.len() && (#[trigger] jump_target(p[i2])) is Some
                    && i2 < #[trigger] st[t] implies jump_target(p[i2])->0 < st[t] by {
                if t < st.len() - 1 {
                    assert(st[t] == old(self).stack@[t]);
                }
            }
        }
    }

    /// Closes a loop: resolves the innermost open `Jump` to the index of
    /// the new `Back`, which points back at it. Fails when no loop is open.
    fn back(&mut self, Ghost(c): Ghost<Seq<Instruction>>) -> (r: Result<(), Error>)
        requires
            old(self).scanned(c),
        ensures
            final(self).bytes == old(self).bytes,
            match r {
                Ok(()) => final(self).scanned(c.push(Instruction::Back(None))),
                Err(e) => {
                    &&& e == Error::UnmatchedCloseBracket
                    &&& depth_at(c.push(Instruction::Back(None)), c.len() as int + 1) < 0
                },
            },
    {
        proof {
            lemma_depth_push(c, Instruction::Back(None));
        }
        let jump_index;
        match self.stack.pop() {
            None => return Err(Error::UnmatchedCloseBracket),
            Some(index) => jump_index = index,
        }
        if let Instruction::Jump(_) = self.instructions[jump_index] {
            let back_index = self.instructions.len();
            self.instructions.set(jump_index, Instruction::Jump(Some(back_index)));
            self.instructions.push(Instruction::Back(Some(jump_index)));
            proof {
                let x = Instruction::Back(None);
                let p0 = old(self).instructions@;
                let st0 = old(self).stack@;
                let p = self.instructions@;
                let st = self.stack@;
                let c1 = c.push(x);
                let l = st0.len() - 1;
                assert(st0[l] == jump_index);
                assert forall|k: int| 0 <= k < p.len() implies unresolved(#[trigger] p[k]) == c1[k] by {
                    if k < p0.len() {
                        assert(unresolved(p0[k]) == c[k]);
                    }
                }
                assert forall|t: int, m: int|
                    #![trigger st[t], depth_at(c1, m)]
                    0 <= t < st.len() && st[t] < m <= c1.len() implies depth_at(c1, m) > t by {
                    assert(st[t] == st0[t]);
                    if m == c1.len() {
                        assert(depth_at(c, c.len() as int) > t + 1);
                    } else {
                        assert(depth_at(c, m) > t);
                    }
                }
                assert forall|k: int|
                    0 <= k < p.len() && #[trigger] p[k] == Instruction::Jump(None) implies {
                    &&& depth_at(c1, k) < st.len()
                    &&& st[depth_at(c1, k)] == k
                } by {
                    assert(p0[k] == Instruction::Jump(None));
                    assert(st0[depth_at(c, k)] == k);
                }
                assert forall|i: int|
                    0 <= i < p.len() implies match #[trigger] p[i] {
                    Instruction::Jump(Some(j)) => i < j < p.len() && p[j as int]
                        == Instruction::Back(Some(i as usize)),
                    Instruction::Back(Some(j)) => j < i && p[j as int] == Instruction::Jump(
                        Some(i as usize),
                    ),
                    Instruction::Back(None) => false,
                    _ => true,
                } by {
                    if i != jump_index && i < p0.len() {
                        assert(p[i] == p0[i]);
                        match p0[i] {
                            Instruction::Jump(Some(j)) => {
                                assert(p0[j as int] == Instruction::Back(Some(i as usize)));
                            },
                            Instruction::Back(Some(j)) => {
                                assert(p0[j as int] == Instruction::Jump(Some(i as usize)));
                            },
                            _ => {},
                        }
                    }
                }
                assert forall|i2: int, k: int|
                    0 <= i2 < k < p.len() && (#[trigger] jump_target(p[i2])) is Some
                        && (#[trigger] jump_target(p[k])) is Some && k < jump_target(p[i2])->0
                    implies jump_target(p[k])->0 < jump_target(p[i2])->0 by {
                    if i2 != jump_index && k != jump_index {
                        assert(p[i2] == p0[i2]);
                        assert(p[k] == p0[k]);
                    } else if i2 == jump_index {
                        assert(p[k] == p0[k]);
                    } else {
                        assert(p[i2] == p0[i2]);
                        assert(jump_target(p0[i2]) is Some);
                    }
                }
                assert forall|i2: int, t: int|
                    0 <= i2 < p.len() && 0 <= t < st.len() && (#[trigger] jump_target(p[i2])) is Some
                        && i2 < #[trigger] st[t] implies jump_target(p[i2])->0 < st[t] by {
                    assert(st[t] == st0[t]);
                    assert(st0[t] < st0[l]) by {
                        if st0[t] >= st0[l] {
                            assert(depth_at(c, st0[l] as int) == l);
                            assert(depth_at(c, st0[t] as int) == t);
                            if st0[t] > st0[l] {
                                assert(depth_at(c, st0[t] as int) > l);
                            }
                        }
                    }
                    if i2 != jump_index {
                        assert(p[i2] == p0[i2]);
                    }
                }
            }
            Ok(())
        } else {
            Err(Error::InvalidJumpPairing)
        }
    }
}

} // verus!
